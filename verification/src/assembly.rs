//! Tree assembly: folds the parser collaborator's start/end/text events
//! into an element tree. Each start-element allocates the next sequential
//! identity, constructs the matching kind (or `Unknown`) with its attribute
//! bag namespaced by the element's own name, attaches it to the node on top
//! of the assembly stack, and pushes it; each end-element pops (the root is
//! never popped while input remains); inline text folds into the top node.
//! Exactly one node left on the stack at the end is the root; anything else
//! is a structural error and no partial tree is returned.

use vstd::prelude::*;
use vstd::string::StringExecFns;
use crate::attributes::str_equal;
use crate::strnum::spec_digits;
use crate::strnum::format_u64;
use crate::strnum::lemma_digits_injective;
use crate::strnum::lemma_digits_ok;
use crate::strnum::spec_format_i32;
use crate::strnum::spec_parse_i32;
use crate::ui_elements::UIKind;
use crate::ui_elements::UINode;
use crate::ui_elements::UITree;
use crate::ui_elements::content_prop;
use crate::ui_elements::same_but_attrs;
use crate::ui_elements::lemma_push_detached_wf;
use crate::ui_elements::prop_key;
use crate::ui_elements::wf_arena;

verus! {

/// One event of the markup parser's stream, as the interface with the
/// parser collaborator hands them over: element names and attribute text
/// are opaque strings, namespace information is already discarded.
pub enum ParseEvent {
    StartElement { name: String, attributes: Vec<(String, String)> },
    EndElement { name: String },
    Characters(String),
}

/// A structural failure of assembly: the event stream did not reduce to
/// exactly one root element, so no partial tree is returned.
#[derive(Clone, Copy, PartialEq, Eq, Structural, Debug)]
pub enum AssemblyError {
    Malformed,
}

/// The ghost image of one node as assembly describes it.
pub struct NodeModel {
    pub id: Seq<char>,
    pub kind: UIKind,
    pub parent_type: Seq<char>,
    pub attributes: Map<Seq<char>, Seq<char>>,
    pub children: Seq<int>,
    pub parent: Option<int>,
}

/// The ghost assembly state: the nodes built so far and the stack of open
/// elements.
pub struct AsmState {
    pub nodes: Seq<NodeModel>,
    pub stack: Seq<int>,
}

/// The sequential identity text of the `n`-th node created in a session.
pub open spec fn spec_id(n: nat) -> Seq<char> {
    "ID_"@ + spec_digits(n)
}

/// Which kind a markup element name denotes; names outside the closed set
/// degrade to `Unknown` rather than failing the parse.
pub open spec fn spec_kind_of_name(name: Seq<char>) -> UIKind {
    if name == "Label"@ {
        UIKind::Label
    } else if name == "ContentPage"@ {
        UIKind::ContentPage
    } else if name == "Button"@ {
        UIKind::Button
    } else if name == "Window"@ {
        UIKind::Window
    } else if name == "Grid"@ {
        UIKind::Grid
    } else if name == "StackPanel"@ {
        UIKind::StackLayout
    } else if name == "Grid.ColumnDefinitions"@ {
        UIKind::GridColumnDefinitions
    } else if name == "Grid.RowDefinitions"@ {
        UIKind::GridRowDefinitions
    } else if name == "ColumnDefinition"@ {
        UIKind::ColumnDefinition
    } else if name == "RowDefinition"@ {
        UIKind::RowDefinition
    } else if name == "TextBlock"@ {
        UIKind::TextBlock
    } else {
        UIKind::Unknown
    }
}

/// The attribute bag an element's raw markup attributes seed, each key
/// namespaced by the element's name.
pub open spec fn ns_attrs(name: Seq<char>, raw: Seq<(String, String)>) -> Map<Seq<char>, Seq<char>>
    decreases raw.len(),
{
    if raw.len() == 0 {
        Map::<Seq<char>, Seq<char>>::empty()
    } else {
        ns_attrs(name, raw.drop_last()).insert(prop_key(name, raw.last().0@), raw.last().1@)
    }
}

pub open spec fn attr_text(m: Map<Seq<char>, Seq<char>>, k: Seq<char>) -> Seq<char> {
    if m.contains_key(k) {
        m[k]
    } else {
        Seq::<char>::empty()
    }
}

/// A window starts with usable dimensions: where its `Width` or `Height`
/// is missing or not numeric, construction writes `100`.
pub open spec fn with_window_defaults(
    kind: UIKind,
    tn: Seq<char>,
    m: Map<Seq<char>, Seq<char>>,
) -> Map<Seq<char>, Seq<char>> {
    if kind == UIKind::Window {
        let m1 = if spec_parse_i32(attr_text(m, prop_key(tn, "Width"@))) is None {
            m.insert(prop_key(tn, "Width"@), spec_format_i32(100))
        } else {
            m
        };
        if spec_parse_i32(attr_text(m1, prop_key(tn, "Height"@))) is None {
            m1.insert(prop_key(tn, "Height"@), spec_format_i32(100))
        } else {
            m1
        }
    } else {
        m
    }
}

/// The model of a freshly constructed element.
pub open spec fn new_node_model(
    name: Seq<char>,
    raw: Seq<(String, String)>,
    id: Seq<char>,
    parent: Option<int>,
) -> NodeModel {
    NodeModel {
        id,
        kind: spec_kind_of_name(name),
        parent_type: name,
        attributes: with_window_defaults(spec_kind_of_name(name), name, ns_attrs(name, raw)),
        children: Seq::<int>::empty(),
        parent,
    }
}

/// One assembly step: what a single parser event does to the state.
pub open spec fn asm_step(st: AsmState, e: ParseEvent) -> AsmState {
    match e {
        ParseEvent::StartElement { name, attributes } => {
            let idx = st.nodes.len() as int;
            if st.stack.len() > 0 {
                let p = st.stack.last();
                let node = new_node_model(name@, attributes@, spec_id(st.nodes.len()), Some(p));
                let pn = st.nodes[p];
                let pn2 = NodeModel { children: pn.children.push(idx), ..pn };
                AsmState {
                    nodes: st.nodes.push(node).update(p, pn2),
                    stack: st.stack.push(idx),
                }
            } else {
                let node = new_node_model(name@, attributes@, spec_id(st.nodes.len()), None);
                AsmState { nodes: st.nodes.push(node), stack: st.stack.push(idx) }
            }
        },
        ParseEvent::EndElement { .. } => {
            if st.stack.len() > 1 {
                AsmState { nodes: st.nodes, stack: st.stack.drop_last() }
            } else {
                st
            }
        },
        ParseEvent::Characters(s) => {
            if st.stack.len() > 0 {
                let t = st.stack.last();
                let node = st.nodes[t];
                let updated = match content_prop(node.kind) {
                    Some(prop) => NodeModel {
                        attributes: node.attributes.insert(prop_key(node.parent_type, prop), s@),
                        ..node
                    },
                    None => node,
                };
                AsmState { nodes: st.nodes.update(t, updated), stack: st.stack }
            } else {
                st
            }
        },
    }
}

/// The assembly state an event stream folds to.
pub open spec fn assemble(events: Seq<ParseEvent>) -> AsmState
    decreases events.len(),
{
    if events.len() == 0 {
        AsmState { nodes: Seq::<NodeModel>::empty(), stack: Seq::<int>::empty() }
    } else {
        asm_step(assemble(events.drop_last()), events.last())
    }
}

/// The node realises its model field by field.
pub open spec fn node_models(n: UINode, m: NodeModel) -> bool {
    &&& n.id@ == m.id
    &&& n.kind == m.kind
    &&& n.parent_type@ == m.parent_type
    &&& n.attributes@ == m.attributes
    &&& n.children@.map_values(|c: usize| c as int) == m.children
    &&& match (n.parent, m.parent) {
        (Some(a), Some(b)) => a as int == b,
        (None, None) => true,
        _ => false,
    }
}

pub open spec fn arena_models(nodes: Seq<UINode>, ms: Seq<NodeModel>) -> bool {
    &&& nodes.len() == ms.len()
    &&& forall|i: int| 0 <= i < nodes.len() ==> node_models(#[trigger] nodes[i], ms[i])
}

/// The built tree realises the assembly state.
pub open spec fn tree_models(t: UITree, st: AsmState) -> bool {
    arena_models(t.nodes@, st.nodes)
}

/// Distinct creation ordinals give distinct identity texts.
pub proof fn lemma_spec_id_injective(a: nat, b: nat)
    requires
        spec_id(a) == spec_id(b),
    ensures
        a == b,
{
    lemma_digits_ok(a);
    lemma_digits_ok(b);
    let p = "ID_"@;
    assert(spec_digits(a) =~= spec_id(a).subrange(p.len() as int, spec_id(a).len() as int));
    assert(spec_digits(b) =~= spec_id(b).subrange(p.len() as int, spec_id(b).len() as int));
    lemma_digits_injective(a, b);
}

/// The sequential identity text for one creation ordinal.
pub fn create_id(id: u64) -> (r: String)
    ensures
        r@ == spec_id(id as nat),
{
    let mut s = String::from_str("ID_");
    let digits = format_u64(id);
    s.append(digits.as_str());
    s
}

/// The kind a markup element name denotes.
pub fn kind_of_name(name: &str) -> (k: UIKind)
    ensures
        k == spec_kind_of_name(name@),
{
    if str_equal(name, "Label") {
        UIKind::Label
    } else if str_equal(name, "ContentPage") {
        UIKind::ContentPage
    } else if str_equal(name, "Button") {
        UIKind::Button
    } else if str_equal(name, "Window") {
        UIKind::Window
    } else if str_equal(name, "Grid") {
        UIKind::Grid
    } else if str_equal(name, "StackPanel") {
        UIKind::StackLayout
    } else if str_equal(name, "Grid.ColumnDefinitions") {
        UIKind::GridColumnDefinitions
    } else if str_equal(name, "Grid.RowDefinitions") {
        UIKind::GridRowDefinitions
    } else if str_equal(name, "ColumnDefinition") {
        UIKind::ColumnDefinition
    } else if str_equal(name, "RowDefinition") {
        UIKind::RowDefinition
    } else if str_equal(name, "TextBlock") {
        UIKind::TextBlock
    } else {
        UIKind::Unknown
    }
}

/// Constructs the element a start-event describes: picks the kind from the
/// name, seeds the attribute bag with the raw attributes namespaced by that
/// name, and — for a window — defaults missing or non-numeric dimensions.
/// The node is detached; attachment is the caller's step.
pub fn create_ui_element(name: &str, raw_attributes: &Vec<(String, String)>, id: String) -> (n:
    UINode)
    ensures
        n.wf(),
        node_models(n, new_node_model(name@, raw_attributes@, id@, None)),
{
    let ghost gid = id@;
    let kind = kind_of_name(name);
    let store = crate::attributes::AttributeStore::new();
    let mut node = UINode::new(kind, name, store, id);
    let m = raw_attributes.len();
    let mut j: usize = 0;
    proof {
        assert(raw_attributes@.subrange(0, 0) =~= Seq::<(String, String)>::empty());
    }
    while j < m
        invariant
            0 <= j <= m == raw_attributes@.len(),
            node.wf(),
            node.kind == spec_kind_of_name(name@),
            node.parent_type@ == name@,
            node.id@ == gid,
            node.children@.len() == 0,
            node.parent is None,
            node.attributes@ == ns_attrs(name@, raw_attributes@.subrange(0, j as int)),
        decreases m - j,
    {
        let key = &raw_attributes[j].0;
        let value = &raw_attributes[j].1;
        node.set_attr(key.as_str(), value.as_str());
        j = j + 1;
        proof {
            let pre = raw_attributes@.subrange(0, j - 1);
            let cur = raw_attributes@.subrange(0, j as int);
            assert(cur.drop_last() =~= pre);
            assert(cur.last() == raw_attributes@[j - 1]);
        }
    }
    proof {
        assert(raw_attributes@.subrange(0, m as int) =~= raw_attributes@);
    }
    if kind == UIKind::Window {
        if node.get_width().is_none() {
            node.set_width(100);
        }
        if node.get_height().is_none() {
            node.set_height(100);
        }
    }
    proof {
        assert(node.attributes@ == with_window_defaults(
            spec_kind_of_name(name@),
            name@,
            ns_attrs(name@, raw_attributes@),
        ));
        assert(node.children@.map_values(|c: usize| c as int) =~= Seq::<int>::empty());
    }
    node
}

/// The loop invariant of `build_tree`: the concrete tree and stack realise
/// the ghost assembly state, the arena invariant holds throughout, node
/// `i` carries the `i`-th sequential identity, the stack is a strictly
/// increasing chain starting at the root, and only node 0 is parentless.
spec fn building_ok(tree: UITree, stack: Seq<usize>, st: AsmState) -> bool {
    &&& arena_models(tree.nodes@, st.nodes)
    &&& stack.map_values(|x: usize| x as int) == st.stack
    &&& wf_arena(tree.nodes@)
    &&& tree.root is None
    &&& forall|m: int| 0 <= m < stack.len() ==> (#[trigger] stack[m] as int) < tree.nodes@.len()
    &&& forall|m1: int, m2: int| 0 <= m1 < m2 < stack.len() ==> stack[m1] < stack[m2]
    &&& (stack.len() > 0 ==> stack[0] == 0)
    &&& (tree.nodes@.len() > 0 <==> stack.len() > 0)
    &&& forall|i: int|
        1 <= i < tree.nodes@.len() ==> (#[trigger] tree.nodes@[i]).parent is Some
    &&& (tree.nodes@.len() > 0 ==> tree.nodes@[0].parent is None)
    &&& forall|i: int|
        0 <= i < tree.nodes@.len() ==> (#[trigger] tree.nodes@[i]).id@ == spec_id(i as nat)
}

/// Builds the element tree from a parser event stream, assigning each node
/// the next sequential identity. Succeeds exactly when the stream reduces
/// to one root element; any other terminal assembly-stack size is a
/// structural error with no partial tree.
pub fn build_tree(events: &Vec<ParseEvent>) -> (r: Result<UITree, AssemblyError>)
    ensures
        match r {
            Ok(t) => {
                &&& assemble(events@).stack.len() == 1
                &&& t.wf()
                &&& tree_models(t, assemble(events@))
                &&& t.root == Some(0usize)
            },
            Err(e) => {
                &&& assemble(events@).stack.len() != 1
                &&& e == AssemblyError::Malformed
            },
        },
{
    let mut tree = UITree::new();
    let mut stack: Vec<usize> = Vec::new();
    let n = events.len();
    let mut k: usize = 0;
    proof {
        assert(events@.subrange(0, 0) =~= Seq::<ParseEvent>::empty());
        assert(stack@.map_values(|x: usize| x as int) =~= Seq::<int>::empty());
    }
    while k < n
        invariant
            0 <= k <= n == events@.len(),
            building_ok(tree, stack@, assemble(events@.subrange(0, k as int))),
        decreases n - k,
    {
        let ghost pre = events@.subrange(0, k as int);
        let ghost st = assemble(pre);
        let ev = &events[k];
        match ev {
            ParseEvent::StartElement { name, attributes } => {
                let count = tree.nodes.len();
                let idstr = create_id(count as u64);
                let node = create_ui_element(name.as_str(), attributes, idstr);
                let ghost before = tree.nodes@;
                proof {
                    assert forall|i: int| 0 <= i < count
                        implies (#[trigger] before[i]).id@ != node.id@ by {
                        if before[i].id@ == node.id@ {
                            lemma_spec_id_injective(i as nat, count as nat);
                        }
                    }
                }
                tree.nodes.push(node);
                proof {
                    assert(node.children@.map_values(|c: usize| c as int).len()
                        == node.children@.len());
                    lemma_push_detached_wf(before, node);
                }
                if stack.len() > 0 {
                    let parent = stack[stack.len() - 1];
                    tree.add_child(parent, count);
                    stack.push(count);
                    proof {
                        let p = st.stack.last();
                        assert(p == parent as int);
                        let nodem = new_node_model(
                            name@,
                            attributes@,
                            spec_id(st.nodes.len()),
                            Some(p),
                        );
                        let pn = st.nodes[p];
                        let pn2 = NodeModel { children: pn.children.push(count as int), ..pn };
                        let st2 = AsmState {
                            nodes: st.nodes.push(nodem).update(p, pn2),
                            stack: st.stack.push(count as int),
                        };
                        assert(st.nodes.len() == count);
                        assert forall|i: int| 0 <= i < tree.nodes@.len()
                            implies node_models(#[trigger] tree.nodes@[i], st2.nodes[i]) by {
                            if i == count {
                                assert(tree.nodes@[i].children@.map_values(|c: usize| c as int)
                                    =~= Seq::<int>::empty());
                            } else if i == p {
                                assert(node_models(before[i], st.nodes[i]));
                                assert(tree.nodes@[i].children@
                                    == before[i].children@.push(count));
                                assert(tree.nodes@[i].children@.map_values(|c: usize| c as int)
                                    =~= before[i].children@.map_values(|c: usize| c as int).push(
                                    count as int,
                                ));
                            } else {
                                assert(tree.nodes@[i] == before[i]);
                                assert(node_models(before[i], st.nodes[i]));
                            }
                        }
                        assert(stack@.map_values(|x: usize| x as int) =~= st2.stack);
                        assert(building_ok(tree, stack@, st2));
                        let cur = events@.subrange(0, k + 1);
                        assert(cur.drop_last() =~= pre);
                        assert(cur.last() == events@[k as int]);
                        assert(assemble(cur) == st2);
                    }
                } else {
                    stack.push(count);
                    proof {
                        let nodem = new_node_model(
                            name@,
                            attributes@,
                            spec_id(st.nodes.len()),
                            None,
                        );
                        let st2 = AsmState {
                            nodes: st.nodes.push(nodem),
                            stack: st.stack.push(count as int),
                        };
                        assert(st.nodes.len() == count);
                        assert(count == 0);
                        assert forall|i: int| 0 <= i < tree.nodes@.len()
                            implies node_models(#[trigger] tree.nodes@[i], st2.nodes[i]) by {
                            if i == count {
                                assert(tree.nodes@[i].children@.map_values(|c: usize| c as int)
                                    =~= Seq::<int>::empty());
                            } else {
                                assert(tree.nodes@[i] == before[i]);
                                assert(node_models(before[i], st.nodes[i]));
                            }
                        }
                        assert(stack@.map_values(|x: usize| x as int) =~= st2.stack);
                        assert(building_ok(tree, stack@, st2));
                        let cur = events@.subrange(0, k + 1);
                        assert(cur.drop_last() =~= pre);
                        assert(cur.last() == events@[k as int]);
                        assert(assemble(cur) == st2);
                    }
                }
            },
            ParseEvent::EndElement { .. } => {
                if stack.len() > 1 {
                    stack.pop();
                    proof {
                        let st2 = AsmState { nodes: st.nodes, stack: st.stack.drop_last() };
                        assert(stack@.map_values(|x: usize| x as int) =~= st2.stack);
                        assert(building_ok(tree, stack@, st2));
                        let cur = events@.subrange(0, k + 1);
                        assert(cur.drop_last() =~= pre);
                        assert(cur.last() == events@[k as int]);
                        assert(assemble(cur) == st2);
                    }
                } else {
                    proof {
                        let cur = events@.subrange(0, k + 1);
                        assert(cur.drop_last() =~= pre);
                        assert(cur.last() == events@[k as int]);
                        assert(st.stack.len() == stack@.len());
                        assert(assemble(cur) == st);
                    }
                }
            },
            ParseEvent::Characters(s) => {
                if stack.len() > 0 {
                    let top = stack[stack.len() - 1];
                    let ghost before = tree.nodes@;
                    tree.add_content(top, s.as_str());
                    proof {
                        let t = st.stack.last();
                        assert(t == top as int);
                        let nodem = st.nodes[t];
                        assert(node_models(before[t], nodem));
                        let updated = match content_prop(nodem.kind) {
                            Some(prop) => NodeModel {
                                attributes: nodem.attributes.insert(
                                    prop_key(nodem.parent_type, prop),
                                    s@,
                                ),
                                ..nodem
                            },
                            None => nodem,
                        };
                        let st2 = AsmState { nodes: st.nodes.update(t, updated), stack: st.stack };
                        assert forall|i: int| 0 <= i < tree.nodes@.len()
                            implies node_models(#[trigger] tree.nodes@[i], st2.nodes[i]) by {
                            if i == t {
                                assert(same_but_attrs(tree.nodes@[i], before[i]));
                            } else {
                                assert(tree.nodes@[i] == before[i]);
                                assert(node_models(before[i], st.nodes[i]));
                            }
                        }
                        assert(building_ok(tree, stack@, st2));
                        let cur = events@.subrange(0, k + 1);
                        assert(cur.drop_last() =~= pre);
                        assert(cur.last() == events@[k as int]);
                        assert(assemble(cur) == st2);
                    }
                } else {
                    proof {
                        let cur = events@.subrange(0, k + 1);
                        assert(cur.drop_last() =~= pre);
                        assert(cur.last() == events@[k as int]);
                        assert(st.stack.len() == 0);
                        assert(assemble(cur) == st);
                    }
                }
            },
        }
        k = k + 1;
    }
    proof {
        assert(events@.subrange(0, n as int) =~= events@);
    }
    if stack.len() != 1 {
        proof {
            assert(assemble(events@).stack.len() == stack@.len());
        }
        return Err(AssemblyError::Malformed);
    }
    tree.root = Some(0);
    proof {
        assert(assemble(events@).stack.len() == stack@.len());
        assert(tree.nodes@.len() > 0);
        assert(tree.root_ok());
    }
    Ok(tree)
}

} // verus!
