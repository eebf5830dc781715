//! The shared element-tree substrate: the closed set of node kinds, the node
//! itself (identity, attribute bag, ordered children, parent back-reference)
//! and the arena-backed tree with identity lookup.
//!
//! Nodes live in one arena and refer to each other by index; a child's index
//! is always strictly greater than its parent's, which rules cycles out and
//! grounds every traversal's termination.

use vstd::prelude::*;
use crate::attributes::AttributeStore;
use crate::attributes::str_equal;
use crate::strnum::spec_parse_i32;
use crate::strnum::spec_format_i32;
use crate::strnum::parse_i32;
use crate::strnum::format_i32;

verus! {

/// The closed set of element kinds; an unrecognised markup name maps to
/// `Unknown`, which still participates fully in structure, visiting and
/// event bubbling.
#[derive(Clone, Copy, PartialEq, Eq, Structural, Debug)]
pub enum UIKind {
    Window,
    ContentPage,
    Label,
    TextBlock,
    Button,
    Grid,
    GridColumnDefinitions,
    GridRowDefinitions,
    ColumnDefinition,
    RowDefinition,
    StackLayout,
    Unknown,
}

/// The diagnostic name each kind reports.
pub open spec fn spec_ui_kind_name(k: UIKind) -> Seq<char> {
    match k {
        UIKind::Window => "Window"@,
        UIKind::ContentPage => "ContentPage"@,
        UIKind::Label => "Label"@,
        UIKind::TextBlock => "TextBlock"@,
        UIKind::Button => "Button"@,
        UIKind::Grid => "Grid"@,
        UIKind::GridColumnDefinitions => "Grid_ColumnDefinitions"@,
        UIKind::GridRowDefinitions => "Grid_RowDefinitions"@,
        UIKind::ColumnDefinition => "ColumnDefinition"@,
        UIKind::RowDefinition => "RowDefinition"@,
        UIKind::StackLayout => "StackLayout"@,
        UIKind::Unknown => "UnknownElementType"@,
    }
}

/// A property key namespaced by the originating element's type name, so that
/// a `Click` on a Button is stored as `Button.Click` and never collides with
/// another kind's `Click`.
pub open spec fn prop_key(parent_type: Seq<char>, prop: Seq<char>) -> Seq<char> {
    parent_type + "."@ + prop
}

/// One element of the tree: the common substrate every kind shares.
pub struct UINode {
    /// Unique within the tree; assigned sequentially by assembly, never by
    /// the node itself.
    pub id: String,
    pub kind: UIKind,
    /// The originating element's type name, used to namespace its keys.
    pub parent_type: String,
    pub attributes: AttributeStore,
    /// Arena indices of the owned children, in document order; each is
    /// strictly greater than this node's own index.
    pub children: Vec<usize>,
    /// Arena index of the owning node; `None` for the root and until the
    /// node is attached.
    pub parent: Option<usize>,
}

/// The attribute text a kind folds inline markup content into, if any:
/// Label and TextBlock keep their text, Button its content; other kinds
/// ignore inline text by design.
pub open spec fn content_prop(k: UIKind) -> Option<Seq<char>> {
    match k {
        UIKind::Label => Some("Text"@),
        UIKind::TextBlock => Some("Text"@),
        UIKind::Button => Some("Content"@),
        _ => None,
    }
}

/// The stored text of a namespaced property, or empty when absent.
pub open spec fn attr_or_empty(n: UINode, prop: Seq<char>) -> Seq<char> {
    let k = prop_key(n.parent_type@, prop);
    if n.attributes@.contains_key(k) {
        n.attributes@[k]
    } else {
        Seq::<char>::empty()
    }
}

/// Everything but the attribute bag is unchanged.
pub open spec fn same_but_attrs(a: UINode, b: UINode) -> bool {
    &&& a.id == b.id
    &&& a.kind == b.kind
    &&& a.parent_type == b.parent_type
    &&& a.children == b.children
    &&& a.parent == b.parent
}

impl UINode {
    /// A fresh, detached node of the given kind.
    pub fn new(kind: UIKind, parent_type: &str, attributes: AttributeStore, id: String) -> (n: UINode)
        requires
            attributes.wf(),
        ensures
            n.kind == kind,
            n.parent_type@ == parent_type@,
            n.attributes == attributes,
            n.id == id,
            n.children@ == Seq::<usize>::empty(),
            n.parent is None,
            n.wf(),
    {
        UINode {
            id,
            kind,
            parent_type: parent_type.to_owned(),
            attributes,
            children: Vec::new(),
            parent: None,
        }
    }

    /// The node's own invariant: its attribute bag is well formed.
    pub open spec fn wf(self) -> bool {
        self.attributes.wf()
    }

    pub fn get_id(&self) -> (r: String)
        ensures
            r == self.id,
    {
        self.id.clone()
    }

    pub fn get_ui_kind_name(&self) -> (r: &'static str)
        ensures
            r@ == spec_ui_kind_name(self.kind),
    {
        match self.kind {
            UIKind::Window => "Window",
            UIKind::ContentPage => "ContentPage",
            UIKind::Label => "Label",
            UIKind::TextBlock => "TextBlock",
            UIKind::Button => "Button",
            UIKind::Grid => "Grid",
            UIKind::GridColumnDefinitions => "Grid_ColumnDefinitions",
            UIKind::GridRowDefinitions => "Grid_RowDefinitions",
            UIKind::ColumnDefinition => "ColumnDefinition",
            UIKind::RowDefinition => "RowDefinition",
            UIKind::StackLayout => "StackLayout",
            UIKind::Unknown => "UnknownElementType",
        }
    }

    /// The namespaced key for one of this node's properties.
    fn get_prop_name(&self, prop: &str) -> (r: String)
        ensures
            r@ == prop_key(self.parent_type@, prop@),
    {
        let base = self.parent_type.clone();
        let with_dot = base.concat(".");
        with_dot.concat(prop)
    }

    /// Namespaced attribute lookup.
    pub fn get_attr_opt(&self, prop: &str) -> (r: Option<&String>)
        requires
            self.wf(),
        ensures
            match r {
                Some(v) => self.attributes@.contains_key(prop_key(self.parent_type@, prop@))
                    && v@ == self.attributes@[prop_key(self.parent_type@, prop@)],
                None => !self.attributes@.contains_key(prop_key(self.parent_type@, prop@)),
            },
    {
        let key = self.get_prop_name(prop);
        self.attributes.get(key.as_str())
    }

    /// Namespaced attribute lookup; this is the per-kind `get_attribute`
    /// every variant exposes.
    pub fn get_attribute(&self, s: &str) -> (r: Option<&String>)
        requires
            self.wf(),
        ensures
            match r {
                Some(v) => self.attributes@.contains_key(prop_key(self.parent_type@, s@))
                    && v@ == self.attributes@[prop_key(self.parent_type@, s@)],
                None => !self.attributes@.contains_key(prop_key(self.parent_type@, s@)),
            },
    {
        self.get_attr_opt(s)
    }

    /// Namespaced attribute lookup defaulting to the empty string.
    pub fn get_attr(&self, prop: &str) -> (r: String)
        requires
            self.wf(),
        ensures
            r@ == attr_or_empty(*self, prop@),
    {
        proof {
            reveal_strlit("");
            assert(""@ =~= Seq::<char>::empty());
        }
        match self.get_attr_opt(prop) {
            Some(v) => v.clone(),
            None => "".to_owned(),
        }
    }

    /// Namespaced attribute upsert.
    pub fn set_attr(&mut self, prop: &str, value: &str)
        requires
            old(self).wf(),
        ensures
            final(self).wf(),
            same_but_attrs(*final(self), *old(self)),
            final(self).attributes@ == old(self).attributes@.insert(
                prop_key(old(self).parent_type@, prop@),
                value@,
            ),
    {
        let key = self.get_prop_name(prop);
        self.attributes.set(key.as_str(), value);
    }

    /// Folds inline markup text into the kind's relevant attribute; kinds
    /// without one ignore the text, which is intentional.
    pub fn add_content_string(&mut self, s: &str)
        requires
            old(self).wf(),
        ensures
            final(self).wf(),
            same_but_attrs(*final(self), *old(self)),
            final(self).attributes@ == match content_prop(old(self).kind) {
                Some(prop) => old(self).attributes@.insert(
                    prop_key(old(self).parent_type@, prop),
                    s@,
                ),
                None => old(self).attributes@,
            },
    {
        match self.kind {
            UIKind::Label => self.set_attr("Text", s),
            UIKind::TextBlock => self.set_attr("Text", s),
            UIKind::Button => self.set_attr("Content", s),
            _ => {},
        }
    }

    /// The `Width` property read as a number; absent or non-numeric text
    /// yields `None`.
    pub fn get_width(&self) -> (r: Option<i32>)
        requires
            self.wf(),
        ensures
            r == spec_parse_i32(attr_or_empty(*self, "Width"@)),
    {
        let text = self.get_attr("Width");
        parse_i32(text.as_str())
    }

    /// The `Height` property read as a number; absent or non-numeric text
    /// yields `None`.
    pub fn get_height(&self) -> (r: Option<i32>)
        requires
            self.wf(),
        ensures
            r == spec_parse_i32(attr_or_empty(*self, "Height"@)),
    {
        let text = self.get_attr("Height");
        parse_i32(text.as_str())
    }

    pub fn set_width(&mut self, v: i32)
        requires
            old(self).wf(),
        ensures
            final(self).wf(),
            same_but_attrs(*final(self), *old(self)),
            final(self).attributes@ == old(self).attributes@.insert(
                prop_key(old(self).parent_type@, "Width"@),
                spec_format_i32(v as int),
            ),
    {
        let text = format_i32(v);
        self.set_attr("Width", text.as_str());
    }

    pub fn set_height(&mut self, v: i32)
        requires
            old(self).wf(),
        ensures
            final(self).wf(),
            same_but_attrs(*final(self), *old(self)),
            final(self).attributes@ == old(self).attributes@.insert(
                prop_key(old(self).parent_type@, "Height"@),
                spec_format_i32(v as int),
            ),
    {
        let text = format_i32(v);
        self.set_attr("Height", text.as_str());
    }

    /// The window's title text, empty when unset.
    pub fn get_title(&self) -> (r: String)
        requires
            self.wf(),
        ensures
            r@ == attr_or_empty(*self, "Title"@),
    {
        self.get_attr("Title")
    }

    /// The window's style text, empty when unset.
    pub fn get_window_style(&self) -> (r: String)
        requires
            self.wf(),
        ensures
            r@ == attr_or_empty(*self, "WindowStyle"@),
    {
        self.get_attr("WindowStyle")
    }

    /// A label's text content, empty when unset.
    pub fn get_content(&self) -> (r: String)
        requires
            self.wf(),
        ensures
            r@ == attr_or_empty(*self, "Text"@),
    {
        self.get_attr("Text")
    }

    /// A button's content text, empty when unset.
    pub fn get_text(&self) -> (r: String)
        requires
            self.wf(),
        ensures
            r@ == attr_or_empty(*self, "Content"@),
    {
        self.get_attr("Content")
    }
}

/// Arena index of child `j` of node `i`.
pub open spec fn child_at(nodes: Seq<UINode>, i: int, j: int) -> int {
    nodes[i].children@[j] as int
}

pub open spec fn num_children(nodes: Seq<UINode>, i: int) -> int {
    nodes[i].children@.len() as int
}

pub open spec fn parent_of(nodes: Seq<UINode>, i: int) -> Option<int> {
    match nodes[i].parent {
        Some(p) => Some(p as int),
        None => None,
    }
}

/// The arena invariant: every child link points forward to a node whose
/// back-reference agrees, every back-reference is mirrored by exactly one
/// child slot, and identities are pairwise distinct. A child's index always
/// exceeds its parent's, so the structure is acyclic by construction.
pub open spec fn wf_arena(nodes: Seq<UINode>) -> bool {
    &&& forall|i: int| 0 <= i < nodes.len() ==> (#[trigger] nodes[i]).wf()
    &&& forall|i: int, j: int|
        0 <= i < nodes.len() && 0 <= j < num_children(nodes, i)
            ==> i < #[trigger] child_at(nodes, i, j) < nodes.len()
    &&& forall|i: int, j: int|
        0 <= i < nodes.len() && 0 <= j < num_children(nodes, i)
            ==> parent_of(nodes, #[trigger] child_at(nodes, i, j)) == Some(i)
    &&& forall|i: int|
        0 <= i < nodes.len() ==> match #[trigger] parent_of(nodes, i) {
            Some(p) => 0 <= p < i && exists|j: int|
                0 <= j < num_children(nodes, p) && #[trigger] child_at(nodes, p, j) == i,
            None => true,
        }
    &&& forall|i: int, j1: int, j2: int|
        0 <= i < nodes.len() && 0 <= j1 < j2 < num_children(nodes, i)
            ==> #[trigger] child_at(nodes, i, j1) != #[trigger] child_at(nodes, i, j2)
    &&& forall|i: int, j: int|
        0 <= i < j < nodes.len() ==> (#[trigger] nodes[i]).id@ != (#[trigger] nodes[j]).id@
}

/// Whether node `j` lies in the subtree rooted at node `i` (including `i`
/// itself).
pub open spec fn in_subtree(nodes: Seq<UINode>, i: int, j: int) -> bool
    decreases nodes.len() - i
        when wf_arena(nodes) && 0 <= i < nodes.len()
{
    i == j || exists|c: int|
        0 <= c < num_children(nodes, i) && in_subtree(nodes, #[trigger] child_at(nodes, i, c), j)
}

/// Descendants always carry larger arena indices than their root, so no
/// traversal can revisit a node.
pub proof fn lemma_subtree_bounds(nodes: Seq<UINode>, i: int, j: int)
    requires
        wf_arena(nodes),
        0 <= i < nodes.len(),
        in_subtree(nodes, i, j),
    ensures
        i <= j < nodes.len(),
    decreases nodes.len() - i,
{
    if i != j {
        let c = choose|c: int|
            0 <= c < num_children(nodes, i) && in_subtree(nodes, #[trigger] child_at(nodes, i, c), j);
        lemma_subtree_bounds(nodes, child_at(nodes, i, c), j);
    }
}

/// A child of any node of a subtree is in the subtree too.
pub proof fn lemma_subtree_child(nodes: Seq<UINode>, a: int, b: int, j: int)
    requires
        wf_arena(nodes),
        0 <= a < nodes.len(),
        in_subtree(nodes, a, b),
        0 <= b < nodes.len(),
        0 <= j < num_children(nodes, b),
    ensures
        in_subtree(nodes, a, child_at(nodes, b, j)),
    decreases nodes.len() - a,
{
    if a == b {
        assert(in_subtree(nodes, child_at(nodes, b, j), child_at(nodes, b, j)));
    } else {
        let c = choose|c: int|
            0 <= c < num_children(nodes, a) && in_subtree(nodes, #[trigger] child_at(nodes, a, c), b);
        lemma_subtree_child(nodes, child_at(nodes, a, c), b, j);
        assert(in_subtree(nodes, child_at(nodes, a, c), child_at(nodes, b, j)));
    }
}

/// The tree: the arena of nodes and the root reference.
pub struct UITree {
    pub nodes: Vec<UINode>,
    pub root: Option<usize>,
}

impl UITree {
    /// Once a root is set, it is the one node without a parent: the
    /// structure is a single rooted tree and every node hangs off the root.
    pub open spec fn root_ok(self) -> bool {
        match self.root {
            Some(r) => {
                &&& (r as int) < self.nodes@.len()
                &&& self.nodes@[r as int].parent is None
                &&& forall|i: int|
                    0 <= i < self.nodes@.len() && i != r
                        ==> (#[trigger] self.nodes@[i]).parent is Some
            },
            None => self.nodes@.len() == 0,
        }
    }

    pub open spec fn wf(self) -> bool {
        wf_arena(self.nodes@) && self.root_ok()
    }

    pub open spec fn valid_index(self, i: int) -> bool {
        0 <= i < self.nodes@.len()
    }

    /// An empty tree with no root.
    pub fn new() -> (t: UITree)
        ensures
            t.nodes@.len() == 0,
            t.root is None,
            t.wf(),
    {
        UITree { nodes: Vec::new(), root: None }
    }

    /// Depth-first identity search of one subtree: the node itself first,
    /// then the children in document order; first match wins.
    fn find_from(&self, i: usize, id: &str) -> (r: Option<usize>)
        requires
            wf_arena(self.nodes@),
            0 <= i < self.nodes@.len(),
        ensures
            match r {
                Some(f) => in_subtree(self.nodes@, i as int, f as int)
                    && 0 <= f < self.nodes@.len() && self.nodes@[f as int].id@ == id@,
                None => forall|j: int|
                    in_subtree(self.nodes@, i as int, j) && 0 <= j < self.nodes@.len()
                        ==> (#[trigger] self.nodes@[j]).id@ != id@,
            },
        decreases self.nodes@.len() - i,
    {
        if str_equal(self.nodes[i].id.as_str(), id) {
            return Some(i);
        }
        let n = self.nodes[i].children.len();
        let mut j: usize = 0;
        while j < n
            invariant
                wf_arena(self.nodes@),
                0 <= i < self.nodes@.len(),
                0 <= j <= n == num_children(self.nodes@, i as int),
                self.nodes@[i as int].id@ != id@,
                forall|jj: int, x: int|
                    0 <= jj < j && in_subtree(self.nodes@, #[trigger] child_at(self.nodes@, i as int, jj), x)
                        && 0 <= x < self.nodes@.len()
                        ==> (#[trigger] self.nodes@[x]).id@ != id@,
            decreases n - j,
        {
            let c = self.nodes[i].children[j];
            assert((i as int) < child_at(self.nodes@, i as int, j as int) < self.nodes@.len());
            assert(c == child_at(self.nodes@, i as int, j as int));
            let r = self.find_from(c, id);
            if r.is_some() {
                proof {
                    let f = r->Some_0;
                    assert(in_subtree(self.nodes@, c as int, f as int));
                    assert(in_subtree(self.nodes@, i as int, f as int));
                }
                return r;
            }
            j = j + 1;
        }
        proof {
            assert forall|x: int|
                in_subtree(self.nodes@, i as int, x) && 0 <= x < self.nodes@.len()
                    implies (#[trigger] self.nodes@[x]).id@ != id@ by {
                if x != i {
                    let c = choose|c: int|
                        0 <= c < num_children(self.nodes@, i as int)
                            && in_subtree(self.nodes@, #[trigger] child_at(self.nodes@, i as int, c), x);
                }
            }
        }
        None
    }

    /// Identity lookup over the whole tree: returns the node whose `id`
    /// matches, or nothing when no node carries that identity.
    pub fn find_by_id(&self, id: &str) -> (r: Option<usize>)
        requires
            self.wf(),
        ensures
            match r {
                Some(f) => 0 <= f < self.nodes@.len() && self.nodes@[f as int].id@ == id@,
                None => forall|j: int|
                    0 <= j < self.nodes@.len() ==> (#[trigger] self.nodes@[j]).id@ != id@,
            },
    {
        match self.root {
            Some(r) => {
                let found = self.find_from(r, id);
                proof {
                    if found is None {
                        assert forall|j: int| 0 <= j < self.nodes@.len()
                            implies (#[trigger] self.nodes@[j]).id@ != id@ by {
                            lemma_root_spans(*self, r, j);
                        }
                    }
                }
                found
            },
            None => None,
        }
    }

    /// Appends `child` to `parent`'s children and sets the child's parent
    /// back-reference, which until then was unset. Assembly calls this
    /// exactly once per non-root node; a second attachment of the same node
    /// is ruled out because its back-reference is then already set.
    pub fn add_child(&mut self, parent: usize, child: usize)
        requires
            wf_arena(old(self).nodes@),
            (parent as int) < old(self).nodes@.len(),
            (child as int) < old(self).nodes@.len(),
            parent < child,
            old(self).nodes@[child as int].parent is None,
        ensures
            wf_arena(final(self).nodes@),
            final(self).root == old(self).root,
            final(self).nodes@.len() == old(self).nodes@.len(),
            final(self).nodes@[parent as int].children@
                == old(self).nodes@[parent as int].children@.push(child),
            final(self).nodes@[child as int].parent == Some(parent),
            ({
                let p0 = old(self).nodes@[parent as int];
                let p1 = final(self).nodes@[parent as int];
                p1.id == p0.id && p1.kind == p0.kind && p1.parent_type == p0.parent_type
                    && p1.attributes == p0.attributes && p1.parent == p0.parent
            }),
            ({
                let c0 = old(self).nodes@[child as int];
                let c1 = final(self).nodes@[child as int];
                c1.id == c0.id && c1.kind == c0.kind && c1.parent_type == c0.parent_type
                    && c1.attributes == c0.attributes && c1.children == c0.children
            }),
            forall|k: int|
                0 <= k < old(self).nodes@.len() && k != parent && k != child
                    ==> final(self).nodes@[k] == old(self).nodes@[k],
    {
        let ghost before = self.nodes@;
        self.nodes[parent].children.push(child);
        self.nodes[child].parent = Some(parent);
        proof {
            let after = self.nodes@;
            lemma_add_child_wf(before, after, parent, child);
        }
    }
}

/// The attachment of one fresh child preserves the arena invariant.
proof fn lemma_add_child_wf(before: Seq<UINode>, after: Seq<UINode>, parent: usize, child: usize)
    requires
        wf_arena(before),
        (parent as int) < before.len(),
        (child as int) < before.len(),
        parent < child,
        before[child as int].parent is None,
        after.len() == before.len(),
        after[parent as int].children@ == before[parent as int].children@.push(child),
        after[parent as int].id == before[parent as int].id,
        after[parent as int].kind == before[parent as int].kind,
        after[parent as int].parent_type == before[parent as int].parent_type,
        after[parent as int].attributes == before[parent as int].attributes,
        after[parent as int].parent == before[parent as int].parent,
        after[child as int].parent == Some(parent),
        after[child as int].id == before[child as int].id,
        after[child as int].kind == before[child as int].kind,
        after[child as int].parent_type == before[child as int].parent_type,
        after[child as int].attributes == before[child as int].attributes,
        after[child as int].children == before[child as int].children,
        forall|k: int| 0 <= k < before.len() && k != parent as int && k != child as int
            ==> #[trigger] after[k] == before[k],
    ensures
        wf_arena(after),
{
    let new_slot = num_children(before, parent as int);
    assert forall|i: int| 0 <= i < after.len() implies (#[trigger] after[i]).wf() by {
        assert(after[i].attributes == before[i].attributes);
        assert(before[i].wf());
    }
    assert forall|i: int, j: int|
        0 <= i < after.len() && 0 <= j < num_children(after, i)
        implies i < #[trigger] child_at(after, i, j) < after.len() by {
        if i == parent as int as int && j == new_slot {
            assert(child_at(after, i, j) == child as int);
        } else {
            assert(after[i].children@[j] == before[i].children@[j]);
            assert(child_at(after, i, j) == child_at(before, i, j));
        }
    }
    assert forall|i: int, j: int|
        0 <= i < after.len() && 0 <= j < num_children(after, i)
        implies parent_of(after, #[trigger] child_at(after, i, j)) == Some(i) by {
        if i == parent as int as int && j == new_slot {
            assert(child_at(after, i, j) == child as int);
            assert(parent_of(after, child as int) == Some(parent as int));
        } else {
            assert(after[i].children@[j] == before[i].children@[j]);
            let c = child_at(before, i, j);
            assert(parent_of(before, c) == Some(i));
            assert(c != child as int);
            assert(after[c].parent == before[c].parent);
            assert(parent_of(after, c) == Some(i));
        }
    }
    assert forall|i: int|
        0 <= i < after.len() implies match #[trigger] parent_of(after, i) {
            Some(p) => 0 <= p < i && exists|j: int|
                0 <= j < num_children(after, p) && #[trigger] child_at(after, p, j) == i,
            None => true,
        } by {
        if i == child as int {
            assert(parent_of(after, i) == Some(parent as int));
            assert(child_at(after, parent as int, new_slot) == i);
            assert(0 <= new_slot < num_children(after, parent as int));
        } else {
            assert(after[i].parent == before[i].parent);
            match parent_of(before, i) {
                Some(p) => {
                    let j = choose|j: int|
                        0 <= j < num_children(before, p) && #[trigger] child_at(before, p, j) == i;
                    assert(after[p].children@[j] == before[p].children@[j]);
                    assert(child_at(after, p, j) == i);
                    assert(0 <= j < num_children(after, p));
                },
                None => {},
            }
        }
    }
    assert forall|i: int, j1: int, j2: int|
        0 <= i < after.len() && 0 <= j1 < j2 < num_children(after, i)
        implies #[trigger] child_at(after, i, j1) != #[trigger] child_at(after, i, j2) by {
        if i == parent as int && j2 == new_slot {
            assert(after[i].children@[j1] == before[i].children@[j1]);
            assert(child_at(after, i, j1) == child_at(before, i, j1));
            assert(parent_of(before, child_at(before, i, j1)) == Some(i));
            assert(child_at(after, i, j2) == child as int);
            assert(parent_of(before, child as int) is None);
        } else {
            assert(after[i].children@[j1] == before[i].children@[j1]);
            assert(after[i].children@[j2] == before[i].children@[j2]);
            assert(child_at(after, i, j1) == child_at(before, i, j1));
            assert(child_at(after, i, j2) == child_at(before, i, j2));
        }
    }
    assert forall|i: int, j: int|
        0 <= i < j < after.len() implies (#[trigger] after[i]).id@ != (#[trigger] after[j]).id@ by {
        assert(after[i].id == before[i].id);
        assert(after[j].id == before[j].id);
    }
}

/// With a root set, every node of a well-formed tree lies in the root's
/// subtree.
pub proof fn lemma_root_spans(t: UITree, r: usize, i: int)
    requires
        t.wf(),
        t.root == Some(r),
        0 <= i < t.nodes@.len(),
    ensures
        in_subtree(t.nodes@, r as int, i),
    decreases i,
{
    let nodes = t.nodes@;
    if i != r as int {
        assert(nodes[i].parent is Some);
        match parent_of(nodes, i) {
            Some(p) => {
                assert(0 <= p < i);
                let j = choose|j: int|
                    0 <= j < num_children(nodes, p) && #[trigger] child_at(nodes, p, j) == i;
                lemma_root_spans(t, r, p);
                lemma_subtree_child(nodes, r as int, p, j);
            },
            None => {
                assert(false);
            },
        }
    }
}

/// Identity uniqueness: in any well-formed tree — in particular any tree
/// assembly hands out — node identities are pairwise distinct.
pub proof fn lemma_ids_distinct(t: UITree, i: int, j: int)
    requires
        t.wf(),
        0 <= i < t.nodes@.len(),
        0 <= j < t.nodes@.len(),
        i != j,
    ensures
        t.nodes@[i].id@ != t.nodes@[j].id@,
{
}

/// Two arenas that differ at most in their nodes' kinds: identities,
/// attribute bags, namespacing and all parent/child links coincide.
pub open spec fn same_but_kinds(a: Seq<UINode>, b: Seq<UINode>) -> bool {
    &&& a.len() == b.len()
    &&& forall|i: int|
        0 <= i < a.len() ==> {
            &&& (#[trigger] a[i]).id == b[i].id
            &&& a[i].parent_type == b[i].parent_type
            &&& a[i].attributes == b[i].attributes
            &&& a[i].children == b[i].children
            &&& a[i].parent == b[i].parent
        }
}

/// A node's kind never steers the structure: replacing kinds wholesale —
/// say, turning recognised elements into `Unknown` ones — preserves
/// well-formedness. Children are accepted and owned the same way whatever
/// the kind.
pub proof fn lemma_same_kinds_wf(a: Seq<UINode>, b: Seq<UINode>)
    requires
        same_but_kinds(a, b),
        wf_arena(a),
    ensures
        wf_arena(b),
{
    assert forall|i: int| 0 <= i < b.len() implies (#[trigger] b[i]).wf() by {
        assert(a[i].wf());
        assert(b[i].attributes == a[i].attributes);
    }
    assert(forall|i: int, j: int|
        0 <= i < b.len() && 0 <= j < num_children(b, i)
            ==> #[trigger] child_at(b, i, j) == child_at(a, i, j));
    assert(forall|i: int| 0 <= i < b.len() ==> #[trigger] parent_of(b, i) == parent_of(a, i));
    assert forall|i: int, j: int|
        0 <= i < b.len() && 0 <= j < num_children(b, i)
        implies i < #[trigger] child_at(b, i, j) < b.len()
            && parent_of(b, child_at(b, i, j)) == Some(i) by {
        assert(child_at(b, i, j) == child_at(a, i, j));
        assert(parent_of(b, child_at(a, i, j)) == parent_of(a, child_at(a, i, j)));
    }
    assert forall|i: int|
        0 <= i < b.len() implies match #[trigger] parent_of(b, i) {
            Some(p) => 0 <= p < i && exists|j: int|
                0 <= j < num_children(b, p) && #[trigger] child_at(b, p, j) == i,
            None => true,
        } by {
        match parent_of(a, i) {
            Some(p) => {
                let j = choose|j: int|
                    0 <= j < num_children(a, p) && #[trigger] child_at(a, p, j) == i;
                assert(child_at(b, p, j) == i);
                assert(0 <= j < num_children(b, p));
            },
            None => {},
        }
    }
    assert forall|i: int, j1: int, j2: int|
        0 <= i < b.len() && 0 <= j1 < j2 < num_children(b, i)
        implies #[trigger] child_at(b, i, j1) != #[trigger] child_at(b, i, j2) by {
        assert(child_at(b, i, j1) == child_at(a, i, j1));
        assert(child_at(b, i, j2) == child_at(a, i, j2));
    }
    assert forall|i: int, j: int|
        0 <= i < j < b.len() implies (#[trigger] b[i]).id@ != (#[trigger] b[j]).id@ by {
        assert(b[i].id == a[i].id && b[j].id == a[j].id);
    }
}

/// No traversal revisits a node: a subtree never contains its own root
/// again below a child, since descendants carry strictly larger indices.
pub proof fn lemma_no_cycles(nodes: Seq<UINode>, i: int, j: int)
    requires
        wf_arena(nodes),
        0 <= i < nodes.len(),
        0 <= j < num_children(nodes, i),
    ensures
        !in_subtree(nodes, child_at(nodes, i, j), i),
{
    if in_subtree(nodes, child_at(nodes, i, j), i) {
        lemma_subtree_bounds(nodes, child_at(nodes, i, j), i);
    }
}

/// Single ownership: a node sits in the children list of at most one
/// parent, and only once there.
pub proof fn lemma_single_owner(nodes: Seq<UINode>, p1: int, j1: int, p2: int, j2: int)
    requires
        wf_arena(nodes),
        0 <= p1 < nodes.len(),
        0 <= p2 < nodes.len(),
        0 <= j1 < num_children(nodes, p1),
        0 <= j2 < num_children(nodes, p2),
        child_at(nodes, p1, j1) == child_at(nodes, p2, j2),
    ensures
        p1 == p2,
        j1 == j2,
{
    assert(parent_of(nodes, child_at(nodes, p1, j1)) == Some(p1));
    assert(parent_of(nodes, child_at(nodes, p2, j2)) == Some(p2));
    if j1 != j2 {
        if j1 < j2 {
            assert(child_at(nodes, p1, j1) != child_at(nodes, p1, j2));
        } else {
            assert(child_at(nodes, p1, j2) != child_at(nodes, p1, j1));
        }
    }
}

/// Appending a fresh, detached node with an unseen identity preserves the
/// arena invariant.
pub(crate) proof fn lemma_push_detached_wf(before: Seq<UINode>, node: UINode)
    requires
        wf_arena(before),
        node.wf(),
        node.children@.len() == 0,
        node.parent is None,
        forall|i: int| 0 <= i < before.len() ==> (#[trigger] before[i]).id@ != node.id@,
    ensures
        wf_arena(before.push(node)),
{
    let after = before.push(node);
    let new = before.len() as int;
    assert forall|i: int| 0 <= i < after.len() implies (#[trigger] after[i]).wf() by {
        if i < new {
            assert(after[i] == before[i]);
        }
    }
    assert forall|i: int, j: int|
        0 <= i < after.len() && 0 <= j < num_children(after, i)
        implies i < #[trigger] child_at(after, i, j) < after.len() by {
        assert(i != new);
        assert(after[i] == before[i]);
        assert(child_at(after, i, j) == child_at(before, i, j));
    }
    assert forall|i: int, j: int|
        0 <= i < after.len() && 0 <= j < num_children(after, i)
        implies parent_of(after, #[trigger] child_at(after, i, j)) == Some(i) by {
        assert(i != new);
        assert(after[i] == before[i]);
        assert(child_at(after, i, j) == child_at(before, i, j));
        let c = child_at(before, i, j);
        assert(c < new);
        assert(after[c] == before[c]);
    }
    assert forall|i: int|
        0 <= i < after.len() implies match #[trigger] parent_of(after, i) {
            Some(p) => 0 <= p < i && exists|j: int|
                0 <= j < num_children(after, p) && #[trigger] child_at(after, p, j) == i,
            None => true,
        } by {
        if i < new {
            assert(after[i] == before[i]);
            match parent_of(before, i) {
                Some(p) => {
                    let j = choose|j: int|
                        0 <= j < num_children(before, p) && #[trigger] child_at(before, p, j) == i;
                    assert(after[p] == before[p]);
                    assert(child_at(after, p, j) == i);
                },
                None => {},
            }
        } else {
            assert(parent_of(after, i) is None);
        }
    }
    assert forall|i: int, j1: int, j2: int|
        0 <= i < after.len() && 0 <= j1 < j2 < num_children(after, i)
        implies #[trigger] child_at(after, i, j1) != #[trigger] child_at(after, i, j2) by {
        assert(i != new);
        assert(after[i] == before[i]);
        assert(child_at(after, i, j1) == child_at(before, i, j1));
        assert(child_at(after, i, j2) == child_at(before, i, j2));
    }
    assert forall|i: int, j: int|
        0 <= i < j < after.len() implies (#[trigger] after[i]).id@ != (#[trigger] after[j]).id@ by {
        if j < new {
            assert(after[i] == before[i] && after[j] == before[j]);
        } else {
            assert(after[i] == before[i]);
            assert(after[j] == node);
        }
    }
}

/// Replacing one node's attribute bag with another well-formed bag, links
/// untouched, preserves the arena invariant.
pub(crate) proof fn lemma_update_attrs_wf(before: Seq<UINode>, i: int, n2: UINode)
    requires
        wf_arena(before),
        0 <= i < before.len(),
        same_but_attrs(n2, before[i]),
        n2.wf(),
    ensures
        wf_arena(before.update(i, n2)),
{
    let after = before.update(i, n2);
    assert forall|x: int| 0 <= x < after.len() implies (#[trigger] after[x]).wf() by {
        if x != i {
            assert(after[x] == before[x]);
        }
    }
    assert(forall|x: int| 0 <= x < after.len()
        ==> (#[trigger] after[x]).children == before[x].children);
    assert(forall|x: int| 0 <= x < after.len()
        ==> (#[trigger] after[x]).parent == before[x].parent);
    assert(forall|x: int| 0 <= x < after.len() ==> (#[trigger] after[x]).id == before[x].id);
    assert forall|x: int, j: int|
        0 <= x < after.len() && 0 <= j < num_children(after, x)
        implies i < 0 || #[trigger] child_at(after, x, j) == child_at(before, x, j) by {
        assert(after[x].children == before[x].children);
    }
    assert forall|x: int, j: int|
        0 <= x < after.len() && 0 <= j < num_children(after, x)
        implies x < #[trigger] child_at(after, x, j) < after.len()
            && parent_of(after, child_at(after, x, j)) == Some(x) by {
        assert(after[x].children == before[x].children);
        assert(child_at(after, x, j) == child_at(before, x, j));
        assert(num_children(before, x) == num_children(after, x));
        let c = child_at(before, x, j);
        assert(after[c].parent == before[c].parent);
    }
    assert forall|x: int|
        0 <= x < after.len() implies match #[trigger] parent_of(after, x) {
            Some(p) => 0 <= p < x && exists|j: int|
                0 <= j < num_children(after, p) && #[trigger] child_at(after, p, j) == x,
            None => true,
        } by {
        assert(parent_of(after, x) == parent_of(before, x));
        match parent_of(before, x) {
            Some(p) => {
                let j = choose|j: int|
                    0 <= j < num_children(before, p) && #[trigger] child_at(before, p, j) == x;
                assert(after[p].children == before[p].children);
                assert(child_at(after, p, j) == x);
            },
            None => {},
        }
    }
    assert forall|x: int, j1: int, j2: int|
        0 <= x < after.len() && 0 <= j1 < j2 < num_children(after, x)
        implies #[trigger] child_at(after, x, j1) != #[trigger] child_at(after, x, j2) by {
        assert(after[x].children == before[x].children);
        assert(child_at(after, x, j1) == child_at(before, x, j1));
        assert(child_at(after, x, j2) == child_at(before, x, j2));
    }
}

impl UITree {
    /// Folds inline text into the node at `i`, leaving the tree's shape and
    /// every other node untouched.
    pub fn add_content(&mut self, i: usize, text: &str)
        requires
            wf_arena(old(self).nodes@),
            (i as int) < old(self).nodes@.len(),
        ensures
            wf_arena(final(self).nodes@),
            final(self).root == old(self).root,
            final(self).nodes@.len() == old(self).nodes@.len(),
            forall|k: int|
                0 <= k < old(self).nodes@.len() && k != i
                    ==> final(self).nodes@[k] == old(self).nodes@[k],
            same_but_attrs(final(self).nodes@[i as int], old(self).nodes@[i as int]),
            final(self).nodes@[i as int].attributes@ == match content_prop(
                old(self).nodes@[i as int].kind,
            ) {
                Some(prop) => old(self).nodes@[i as int].attributes@.insert(
                    prop_key(old(self).nodes@[i as int].parent_type@, prop),
                    text@,
                ),
                None => old(self).nodes@[i as int].attributes@,
            },
    {
        let ghost before = self.nodes@;
        let node = &mut self.nodes[i];
        node.add_content_string(text);
        proof {
            assert(self.nodes@ =~= before.update(i as int, self.nodes@[i as int]));
            lemma_update_attrs_wf(before, i as int, self.nodes@[i as int]);
        }
    }
}

/// The indentation prefix for one nesting depth.
pub open spec fn spec_tabs(c: int) -> Seq<char>
    decreases c,
{
    if c <= 0 {
        Seq::<char>::empty()
    } else {
        spec_tabs(c - 1) + "   "@
    }
}

/// The kind-specific tail of one diagnostic line: a window shows its title
/// and style, a page its title, text-bearing kinds their content; the rest
/// add nothing.
pub open spec fn dump_extra(n: UINode) -> Seq<char> {
    match n.kind {
        UIKind::Window => "  -  title:"@ + attr_or_empty(n, "Title"@) + ", style: "@
            + attr_or_empty(n, "WindowStyle"@),
        UIKind::ContentPage => "  -  title:"@ + attr_or_empty(n, "Title"@),
        UIKind::Label => " - content:"@ + attr_or_empty(n, "Text"@),
        UIKind::TextBlock => " - content:"@ + attr_or_empty(n, "Text"@),
        _ => Seq::<char>::empty(),
    }
}

/// One node's diagnostic line at a nesting depth.
pub open spec fn dump_line(n: UINode, indent: int) -> Seq<char> {
    spec_tabs(indent) + "DUMP: "@ + spec_ui_kind_name(n.kind) + dump_extra(n) + "\n"@
}

/// The diagnostic text of a subtree: the node's own line, then each
/// child's text one level deeper, in document order.
pub open spec fn spec_dump(nodes: Seq<UINode>, i: int, indent: int) -> Seq<char>
    decreases nodes.len() - i, num_children(nodes, i) + 1
        when wf_arena(nodes) && 0 <= i < nodes.len()
{
    dump_line(nodes[i], indent) + spec_dump_kids(nodes, i, 0, indent)
}

pub open spec fn spec_dump_kids(nodes: Seq<UINode>, i: int, j: int, indent: int) -> Seq<char>
    decreases nodes.len() - i, num_children(nodes, i) - j
        when wf_arena(nodes) && 0 <= i < nodes.len() && 0 <= j
{
    if j >= num_children(nodes, i) {
        Seq::<char>::empty()
    } else {
        spec_dump(nodes, child_at(nodes, i, j), indent + 1) + spec_dump_kids(nodes, i, j + 1, indent)
    }
}

impl UITree {
    /// The diagnostic text of the subtree at `i`: one line per node,
    /// indented by depth, children in document order.
    pub fn dump(&self, i: usize, indent: i32) -> (r: String)
        requires
            wf_arena(self.nodes@),
            (i as int) < self.nodes@.len(),
            indent as int + (self.nodes@.len() - i as int) <= i32::MAX,
        ensures
            r@ == spec_dump(self.nodes@, i as int, indent as int),
        decreases self.nodes@.len() - i,
    {
        let mut out = tabs(indent);
        out.append("DUMP: ");
        out.append(self.nodes[i].get_ui_kind_name());
        match self.nodes[i].kind {
            UIKind::Window => {
                out.append("  -  title:");
                let t = self.nodes[i].get_title();
                out.append(t.as_str());
                out.append(", style: ");
                let s = self.nodes[i].get_window_style();
                out.append(s.as_str());
            },
            UIKind::ContentPage => {
                out.append("  -  title:");
                let t = self.nodes[i].get_title();
                out.append(t.as_str());
            },
            UIKind::Label => {
                out.append(" - content:");
                let t = self.nodes[i].get_content();
                out.append(t.as_str());
            },
            UIKind::TextBlock => {
                out.append(" - content:");
                let t = self.nodes[i].get_content();
                out.append(t.as_str());
            },
            _ => {},
        }
        out.append("\n");
        proof {
            assert(out@ =~= dump_line(self.nodes@[i as int], indent as int));
        }
        let n = self.nodes[i].children.len();
        let mut j: usize = 0;
        while j < n
            invariant
                wf_arena(self.nodes@),
                (i as int) < self.nodes@.len(),
                indent as int + (self.nodes@.len() - i as int) <= i32::MAX,
                0 <= j <= n == num_children(self.nodes@, i as int),
                out@ + spec_dump_kids(self.nodes@, i as int, j as int, indent as int)
                    == spec_dump(self.nodes@, i as int, indent as int),
            decreases n - j,
        {
            let c = self.nodes[i].children[j];
            assert((i as int) < child_at(self.nodes@, i as int, j as int) < self.nodes@.len());
            assert(c as int == child_at(self.nodes@, i as int, j as int));
            let sub = self.dump(c, indent + 1);
            let ghost out_before = out@;
            out.append(sub.as_str());
            j = j + 1;
            proof {
                assert(spec_dump_kids(self.nodes@, i as int, j - 1, indent as int) == sub@
                    + spec_dump_kids(self.nodes@, i as int, j as int, indent as int));
                assert(out@ + spec_dump_kids(self.nodes@, i as int, j as int, indent as int)
                    =~= out_before + spec_dump_kids(self.nodes@, i as int, j - 1, indent as int));
            }
        }
        proof {
            assert(spec_dump_kids(self.nodes@, i as int, n as int, indent as int)
                =~= Seq::<char>::empty());
            assert(out@ =~= spec_dump(self.nodes@, i as int, indent as int));
        }
        out
    }
}

/// Builds the indentation prefix for a nesting depth: three spaces per
/// level, none for a non-positive depth.
pub fn tabs(c: i32) -> (r: String)
    ensures
        r@ == spec_tabs(c as int),
{
    let mut k = String::new();
    let mut i: i32 = 0;
    while i < c
        invariant
            0 <= i,
            c > 0 ==> i <= c,
            c <= 0 ==> i == 0,
            k@ == spec_tabs(i as int),
        decreases c - i,
    {
        k.append("   ");
        i = i + 1;
    }
    proof {
        if c <= 0 {
            assert(spec_tabs(c as int) == Seq::<char>::empty());
            assert(spec_tabs(0) == Seq::<char>::empty());
        }
    }
    k
}

} // verus!
