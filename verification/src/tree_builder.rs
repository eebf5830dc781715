//! The reference tree builder: consumes the visitor traversal through the
//! scope-stack discipline. Entering a node pushes an empty scope; leaving it
//! pops the scope — now holding the children's artifacts — builds this
//! node's own artifact from it, and pushes the result into the parent's
//! scope. The root's artifact, with no enclosing scope left, becomes the
//! final output.

use vstd::prelude::*;
use crate::ui_elements::UIKind;
use crate::ui_elements::UINode;
use crate::ui_elements::UITree;
use crate::ui_elements::wf_arena;
use crate::ui_elements::child_at;
use crate::ui_elements::num_children;

verus! {

/// An abstract rendered artifact: one widget per tree node, its children
/// fully materialised before it was built.
#[derive(Debug, PartialEq)]
pub struct Widget {
    pub kind: UIKind,
    pub id: String,
    pub children: Vec<Widget>,
}

/// The widget is the faithful rendering of the subtree at `i`: same kind,
/// same identity, and one matching child widget per child node, in order.
pub open spec fn widget_matches(nodes: Seq<UINode>, i: int, w: Widget) -> bool
    decreases nodes.len() - i
        when wf_arena(nodes) && 0 <= i < nodes.len()
{
    &&& w.kind == nodes[i].kind
    &&& w.id@ == nodes[i].id@
    &&& w.children@.len() == num_children(nodes, i)
    &&& forall|j: int|
        0 <= j < num_children(nodes, i)
            ==> widget_matches(nodes, #[trigger] child_at(nodes, i, j), w.children@[j])
}

/// The scope stack and the final output of one rendering run.
pub struct TreeBuilder {
    /// One accumulation scope per node currently being visited; each holds
    /// the artifacts its subtree has produced so far.
    pub scopes: Vec<Vec<Widget>>,
    /// The root's artifact once the traversal has completed.
    pub built: Option<Widget>,
}

impl TreeBuilder {
    pub fn new() -> (b: TreeBuilder)
        ensures
            b.scopes@.len() == 0,
            b.built is None,
    {
        TreeBuilder { scopes: Vec::new(), built: None }
    }

    /// Opens an empty accumulation scope for a subtree about to be visited.
    fn enter_scope(&mut self)
        ensures
            final(self).scopes@.len() == old(self).scopes@.len() + 1,
            forall|m: int|
                0 <= m < old(self).scopes@.len()
                    ==> #[trigger] final(self).scopes@[m] == old(self).scopes@[m],
            final(self).scopes@.last()@ == Seq::<Widget>::empty(),
            final(self).built == old(self).built,
    {
        let fresh: Vec<Widget> = Vec::new();
        self.scopes.push(fresh);
    }

    /// Closes the current scope, handing back the artifacts it gathered.
    fn leave_scope(&mut self) -> (s: Vec<Widget>)
        requires
            old(self).scopes@.len() > 0,
        ensures
            final(self).scopes@ == old(self).scopes@.drop_last(),
            s == old(self).scopes@.last(),
            final(self).built == old(self).built,
    {
        let s = self.scopes.pop();
        match s {
            Some(v) => v,
            None => {
                proof {
                    assert(false);
                }
                Vec::new()
            },
        }
    }

    /// Appends a finished artifact to the enclosing scope.
    fn push_artifact(&mut self, w: Widget)
        requires
            old(self).scopes@.len() > 0,
        ensures
            final(self).scopes@.len() == old(self).scopes@.len(),
            forall|m: int|
                0 <= m < old(self).scopes@.len() - 1
                    ==> #[trigger] final(self).scopes@[m] == old(self).scopes@[m],
            final(self).scopes@.last()@ == old(self).scopes@.last()@.push(w),
            final(self).built == old(self).built,
    {
        let k = self.scopes.len() - 1;
        self.scopes[k].push(w);
    }
}

impl UITree {
    /// Builds the artifact of the subtree at `i` through the scope
    /// discipline. With an enclosing scope, the artifact lands there; at
    /// the root, where none exists, it becomes the builder's output.
    fn build_node(&self, i: usize, b: &mut TreeBuilder)
        requires
            wf_arena(self.nodes@),
            (i as int) < self.nodes@.len(),
            old(b).scopes@.len() > 0 || old(b).built is None,
        ensures
            final(b).scopes@.len() == old(b).scopes@.len(),
            forall|m: int|
                0 <= m < old(b).scopes@.len() - 1
                    ==> #[trigger] final(b).scopes@[m] == old(b).scopes@[m],
            old(b).scopes@.len() > 0 ==> ({
                let os = old(b).scopes@.last()@;
                let ns = final(b).scopes@.last()@;
                &&& ns == os.push(ns.last())
                &&& widget_matches(self.nodes@, i as int, ns.last())
                &&& final(b).built == old(b).built
            }),
            old(b).scopes@.len() == 0 ==> (match final(b).built {
                Some(w) => widget_matches(self.nodes@, i as int, w),
                None => false,
            }),
        decreases self.nodes@.len() - i,
    {
        b.enter_scope();
        let n = self.nodes[i].children.len();
        let mut j: usize = 0;
        while j < n
            invariant
                wf_arena(self.nodes@),
                (i as int) < self.nodes@.len(),
                0 <= j <= n == num_children(self.nodes@, i as int),
                b.scopes@.len() == old(b).scopes@.len() + 1,
                forall|m: int|
                    0 <= m < old(b).scopes@.len()
                        ==> #[trigger] b.scopes@[m] == old(b).scopes@[m],
                b.built == old(b).built,
                ({
                    let top = b.scopes@.last()@;
                    &&& top.len() == j
                    &&& forall|k: int|
                        0 <= k < j ==> widget_matches(
                            self.nodes@,
                            child_at(self.nodes@, i as int, k),
                            #[trigger] top[k],
                        )
                }),
            decreases n - j,
        {
            let c = self.nodes[i].children[j];
            assert((i as int) < child_at(self.nodes@, i as int, j as int) < self.nodes@.len());
            assert(c as int == child_at(self.nodes@, i as int, j as int));
            let ghost top_before = b.scopes@.last()@;
            self.build_node(c, b);
            j = j + 1;
            proof {
                let top = b.scopes@.last()@;
                assert(top == top_before.push(top.last()));
                assert(widget_matches(self.nodes@, c as int, top.last()));
                assert forall|k: int| 0 <= k < j implies widget_matches(
                    self.nodes@,
                    child_at(self.nodes@, i as int, k),
                    #[trigger] top[k],
                ) by {
                    if k < j - 1 {
                        assert(top[k] == top_before[k]);
                    } else {
                        assert(top[k] == top.last());
                    }
                }
            }
        }
        let s = b.leave_scope();
        let w = Widget { kind: self.nodes[i].kind, id: self.nodes[i].id.clone(), children: s };
        proof {
            assert(widget_matches(self.nodes@, i as int, w));
        }
        if b.scopes.len() == 0 {
            b.built = Some(w);
        } else {
            b.push_artifact(w);
        }
    }

    /// Renders the whole tree with a fresh builder. When the traversal
    /// completes, every scope has been closed and exactly one artifact
    /// remains — the root's, held as the final output rather than pushed
    /// into any parent scope; an empty tree renders to no artifact.
    pub fn render(&self) -> (b: TreeBuilder)
        requires
            self.wf(),
        ensures
            b.scopes@.len() == 0,
            match (self.root, b.built) {
                (Some(r), Some(w)) => widget_matches(self.nodes@, r as int, w),
                (None, None) => true,
                _ => false,
            },
    {
        let mut b = TreeBuilder::new();
        match self.root {
            Some(r) => {
                self.build_node(r, &mut b);
            },
            None => {},
        }
        b
    }
}

} // verus!
