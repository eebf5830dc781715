//! Runtime events and their bubbling: an event fired at a node walks the
//! parent chain to the root, and every ancestor whose attribute bag holds a
//! key matching the event's name contributes that attribute's value as a
//! method to invoke. Bubbling never stops early: it always runs to the root.

use vstd::prelude::*;
use crate::ui_elements::UINode;
use crate::ui_elements::UITree;
use crate::ui_elements::wf_arena;
use crate::ui_elements::parent_of;

verus! {

/// A UI interaction event: just a name, such as `Button.Click`. The method
/// registry that turns a resolved method name into an application callback
/// belongs to the embedding application, not to the tree.
pub struct Event {
    pub name: String,
}

impl Event {
    pub fn new(name: &str) -> (e: Event)
        ensures
            e.name@ == name@,
    {
        Event { name: name.to_owned() }
    }

    pub fn get_name(&self) -> (r: &String)
        ensures
            r@ == self.name@,
    {
        &self.name
    }
}

/// The views of a sequence of strings.
pub open spec fn views_of(ss: Seq<String>) -> Seq<Seq<char>> {
    ss.map_values(|s: String| s@)
}

/// The method names an event resolves, walking from node `i` to the root:
/// each node on the chain whose attributes hold the event's name as a key
/// contributes the stored value, child first, root last. Nodes without a
/// match are skipped silently, and the walk stops only at the root.
pub open spec fn bubble_trace(nodes: Seq<UINode>, i: int, name: Seq<char>) -> Seq<Seq<char>>
    decreases i
        when wf_arena(nodes) && 0 <= i < nodes.len()
{
    let own = if nodes[i].attributes@.contains_key(name) {
        seq![nodes[i].attributes@[name]]
    } else {
        Seq::<Seq<char>>::empty()
    };
    match parent_of(nodes, i) {
        Some(p) => own + bubble_trace(nodes, p, name),
        None => own,
    }
}

impl UITree {
    /// Walks from node `i` toward the root collecting the method names the
    /// event name resolves at each ancestor.
    fn bubble(&self, i: usize, name: &str) -> (r: Vec<String>)
        requires
            wf_arena(self.nodes@),
            (i as int) < self.nodes@.len(),
        ensures
            views_of(r@) == bubble_trace(self.nodes@, i as int, name@),
        decreases i,
    {
        let mut out: Vec<String> = Vec::new();
        match self.nodes[i].attributes.get(name) {
            Some(v) => {
                let owned = v.clone();
                out.push(owned);
            },
            None => {},
        }
        let ghost own = views_of(out@);
        proof {
            if self.nodes@[i as int].attributes@.contains_key(name@) {
                assert(own =~= seq![self.nodes@[i as int].attributes@[name@]]);
            } else {
                assert(own =~= Seq::<Seq<char>>::empty());
            }
        }
        match self.nodes[i].parent {
            Some(p) => {
                proof {
                    assert(parent_of(self.nodes@, i as int) == Some(p as int));
                }
                let mut rest = self.bubble(p, name);
                let ghost rest_view = views_of(rest@);
                out.append(&mut rest);
                proof {
                    assert(views_of(out@) =~= own + rest_view);
                }
            },
            None => {},
        }
        out
    }

    /// Dispatches one event from its originating node: resolves, in
    /// child-to-root order, the method name held by every node on the chain
    /// whose attributes match the event's name. The caller hands the
    /// resulting names to its method registry, one `call_method` each, in
    /// order; an empty result means no ancestor had a matching attribute.
    pub fn handle_event(&self, origin: usize, ev: &Event) -> (r: Vec<String>)
        requires
            self.wf(),
            (origin as int) < self.nodes@.len(),
        ensures
            views_of(r@) == bubble_trace(self.nodes@, origin as int, ev.name@),
    {
        self.bubble(origin, ev.name.as_str())
    }
}

/// Unknown passthrough, dispatch half: two arenas that differ only in
/// their nodes' kinds resolve every event identically — an `Unknown`
/// element bubbles exactly as a recognised kind does.
pub proof fn lemma_same_kinds_bubble(a: Seq<UINode>, b: Seq<UINode>, i: int, name: Seq<char>)
    requires
        crate::ui_elements::same_but_kinds(a, b),
        wf_arena(a),
        0 <= i < a.len(),
    ensures
        bubble_trace(b, i, name) == bubble_trace(a, i, name),
    decreases i,
{
    crate::ui_elements::lemma_same_kinds_wf(a, b);
    assert(b[i].attributes == a[i].attributes);
    assert(parent_of(b, i) == parent_of(a, i));
    match parent_of(a, i) {
        Some(p) => {
            assert(0 <= p < i);
            lemma_same_kinds_bubble(a, b, p, name);
        },
        None => {},
    }
}

/// Bubbling completeness: on a chain root→a→b→c where `a` and the root
/// carry an attribute matching the event's name and `b` and `c` do not, an
/// event fired at `c` resolves exactly two methods — `a`'s mapped value
/// first, then the root's — regardless of `b` contributing nothing.
pub proof fn lemma_bubbling_chain(
    t: UITree,
    root: usize,
    a: usize,
    b: usize,
    c: usize,
    name: Seq<char>,
)
    requires
        t.wf(),
        (root as int) < t.nodes@.len(),
        (a as int) < t.nodes@.len(),
        (b as int) < t.nodes@.len(),
        (c as int) < t.nodes@.len(),
        t.nodes@[c as int].parent == Some(b),
        t.nodes@[b as int].parent == Some(a),
        t.nodes@[a as int].parent == Some(root),
        t.nodes@[root as int].parent is None,
        !t.nodes@[c as int].attributes@.contains_key(name),
        !t.nodes@[b as int].attributes@.contains_key(name),
        t.nodes@[a as int].attributes@.contains_key(name),
        t.nodes@[root as int].attributes@.contains_key(name),
    ensures
        bubble_trace(t.nodes@, c as int, name) == seq![
            t.nodes@[a as int].attributes@[name],
            t.nodes@[root as int].attributes@[name],
        ],
{
    let nodes = t.nodes@;
    let ma = nodes[a as int].attributes@[name];
    let mr = nodes[root as int].attributes@[name];
    assert(parent_of(nodes, c as int) == Some(b as int));
    assert(parent_of(nodes, b as int) == Some(a as int));
    assert(parent_of(nodes, a as int) == Some(root as int));
    assert(parent_of(nodes, root as int) is None);
    assert(bubble_trace(nodes, root as int, name) == seq![mr]);
    assert(bubble_trace(nodes, a as int, name) =~= seq![ma, mr]);
    assert(bubble_trace(nodes, b as int, name) =~= seq![ma, mr]);
    assert(bubble_trace(nodes, c as int, name) =~= seq![ma, mr]);
}

} // verus!
