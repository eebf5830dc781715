//! The two-phase visitor protocol: every node is entered (`start_visit_*`)
//! before any of its children and left (`visit_*`) only after all of them,
//! so a renderer can open an accumulation scope on entry and assemble the
//! node's own artifact from fully built children on exit.

use vstd::prelude::*;
use crate::ui_elements::UIKind;
use crate::ui_elements::UINode;
use crate::ui_elements::UITree;
use crate::ui_elements::wf_arena;
use crate::ui_elements::child_at;
use crate::ui_elements::num_children;

verus! {

/// One step of the two-phase traversal: entering a node before any of its
/// children, or leaving it after all of them.
#[derive(Clone, Copy, PartialEq, Eq, Structural, Debug)]
pub enum VisitStep {
    Start(usize),
    End(usize),
}

/// The canonical pre/post-order trace of the subtree rooted at `i`: enter
/// the node, traverse each child in document order, leave the node.
pub open spec fn spec_visit(nodes: Seq<UINode>, i: int) -> Seq<VisitStep>
    decreases nodes.len() - i, num_children(nodes, i) + 1
        when wf_arena(nodes) && 0 <= i < nodes.len()
{
    seq![VisitStep::Start(i as usize)] + spec_visit_kids(nodes, i, 0) + seq![
        VisitStep::End(i as usize),
    ]
}

/// The trace of the children of `i` from child slot `j` onward.
pub open spec fn spec_visit_kids(nodes: Seq<UINode>, i: int, j: int) -> Seq<VisitStep>
    decreases nodes.len() - i, num_children(nodes, i) - j
        when wf_arena(nodes) && 0 <= i < nodes.len() && 0 <= j
{
    if j >= num_children(nodes, i) {
        Seq::<VisitStep>::empty()
    } else {
        spec_visit(nodes, child_at(nodes, i, j)) + spec_visit_kids(nodes, i, j + 1)
    }
}

pub open spec fn count_starts(s: Seq<VisitStep>) -> int {
    s.filter(|st: VisitStep| st is Start).len() as int
}

pub open spec fn count_ends(s: Seq<VisitStep>) -> int {
    s.filter(|st: VisitStep| st is End).len() as int
}

proof fn lemma_count_singleton(st: VisitStep)
    ensures
        count_starts(seq![st]) == if st is Start {
            1int
        } else {
            0int
        },
        count_ends(seq![st]) == if st is End {
            1int
        } else {
            0int
        },
{
    reveal_with_fuel(Seq::filter, 2);
    assert(seq![st].drop_last() =~= Seq::<VisitStep>::empty());
}

proof fn lemma_count_concat(a: Seq<VisitStep>, b: Seq<VisitStep>)
    ensures
        count_starts(a + b) == count_starts(a) + count_starts(b),
        count_ends(a + b) == count_ends(a) + count_ends(b),
{
    Seq::<VisitStep>::filter_distributes_over_add(a, b, |st: VisitStep| st is Start);
    Seq::<VisitStep>::filter_distributes_over_add(a, b, |st: VisitStep| st is End);
}

/// Visitor scope balance: over any subtree's traversal, nodes are entered
/// exactly as often as they are left.
pub proof fn lemma_visit_balance(nodes: Seq<UINode>, i: int)
    requires
        wf_arena(nodes),
        0 <= i < nodes.len(),
    ensures
        count_starts(spec_visit(nodes, i)) == count_ends(spec_visit(nodes, i)),
    decreases nodes.len() - i, num_children(nodes, i) + 1,
{
    lemma_visit_kids_balance(nodes, i, 0);
    let start = seq![VisitStep::Start(i as usize)];
    let end = seq![VisitStep::End(i as usize)];
    let kids = spec_visit_kids(nodes, i, 0);
    lemma_count_singleton(VisitStep::Start(i as usize));
    lemma_count_singleton(VisitStep::End(i as usize));
    lemma_count_concat(start, kids);
    lemma_count_concat(start + kids, end);
}

proof fn lemma_visit_kids_balance(nodes: Seq<UINode>, i: int, j: int)
    requires
        wf_arena(nodes),
        0 <= i < nodes.len(),
        0 <= j,
    ensures
        count_starts(spec_visit_kids(nodes, i, j)) == count_ends(spec_visit_kids(nodes, i, j)),
    decreases nodes.len() - i, num_children(nodes, i) - j,
{
    if j >= num_children(nodes, i) {
        reveal_with_fuel(Seq::filter, 2);
        assert(count_starts(Seq::<VisitStep>::empty()) == 0);
        assert(count_ends(Seq::<VisitStep>::empty()) == 0);
    } else {
        lemma_visit_balance(nodes, child_at(nodes, i, j));
        lemma_visit_kids_balance(nodes, i, j + 1);
        lemma_count_concat(
            spec_visit(nodes, child_at(nodes, i, j)),
            spec_visit_kids(nodes, i, j + 1),
        );
    }
}

/// Unknown passthrough, traversal half: two arenas that differ only in
/// their nodes' kinds are traversed in exactly the same step order — an
/// `Unknown` element participates in visiting like any recognised kind.
pub proof fn lemma_same_kinds_visit(a: Seq<UINode>, b: Seq<UINode>, i: int)
    requires
        crate::ui_elements::same_but_kinds(a, b),
        wf_arena(a),
        0 <= i < a.len(),
    ensures
        spec_visit(b, i) == spec_visit(a, i),
    decreases a.len() - i, num_children(a, i) + 1,
{
    crate::ui_elements::lemma_same_kinds_wf(a, b);
    lemma_same_kinds_visit_kids(a, b, i, 0);
}

proof fn lemma_same_kinds_visit_kids(a: Seq<UINode>, b: Seq<UINode>, i: int, j: int)
    requires
        crate::ui_elements::same_but_kinds(a, b),
        wf_arena(a),
        0 <= i < a.len(),
        0 <= j,
    ensures
        spec_visit_kids(b, i, j) == spec_visit_kids(a, i, j),
    decreases a.len() - i, num_children(a, i) - j,
{
    crate::ui_elements::lemma_same_kinds_wf(a, b);
    assert(b[i].children == a[i].children);
    assert(num_children(b, i) == num_children(a, i));
    if j < num_children(a, i) {
        assert(child_at(b, i, j) == child_at(a, i, j));
        lemma_same_kinds_visit(a, b, child_at(a, i, j));
        lemma_same_kinds_visit_kids(a, b, i, j + 1);
    }
}

impl UITree {
    /// The visitor callback order for the subtree at `i`: one Start/End
    /// pair per node, fully nested per the tree shape.
    pub fn visit(&self, i: usize) -> (r: Vec<VisitStep>)
        requires
            wf_arena(self.nodes@),
            (i as int) < self.nodes@.len(),
        ensures
            r@ == spec_visit(self.nodes@, i as int),
        decreases self.nodes@.len() - i,
    {
        let mut out: Vec<VisitStep> = Vec::new();
        out.push(VisitStep::Start(i));
        let n = self.nodes[i].children.len();
        let mut j: usize = 0;
        while j < n
            invariant
                wf_arena(self.nodes@),
                (i as int) < self.nodes@.len(),
                0 <= j <= n == num_children(self.nodes@, i as int),
                out@ + spec_visit_kids(self.nodes@, i as int, j as int) + seq![
                    VisitStep::End(i),
                ] == spec_visit(self.nodes@, i as int),
            decreases n - j,
        {
            let c = self.nodes[i].children[j];
            assert((i as int) < child_at(self.nodes@, i as int, j as int) < self.nodes@.len());
            assert(c as int == child_at(self.nodes@, i as int, j as int));
            let mut sub = self.visit(c);
            let ghost out_before = out@;
            let ghost sub_view = sub@;
            out.append(&mut sub);
            j = j + 1;
            proof {
                assert(out@ =~= out_before + sub_view);
                assert(spec_visit_kids(self.nodes@, i as int, j - 1) == sub_view
                    + spec_visit_kids(self.nodes@, i as int, j as int));
                assert(out@ + spec_visit_kids(self.nodes@, i as int, j as int) + seq![
                    VisitStep::End(i),
                ] =~= out_before + spec_visit_kids(self.nodes@, i as int, j - 1) + seq![
                    VisitStep::End(i),
                ]);
            }
        }
        out.push(VisitStep::End(i));
        proof {
            assert(spec_visit_kids(self.nodes@, i as int, n as int) =~= Seq::<VisitStep>::empty());
            assert(out@ =~= spec_visit(self.nodes@, i as int));
        }
        out
    }
}

/// The double-dispatch surface a renderer implements: an entry and an exit
/// hook per node kind. `accept` drives these in the canonical order; a
/// renderer that has no native artifact for some kind simply treats its
/// hooks as traversal bookkeeping.
pub trait Visitor {
    fn start_visit_button(&mut self, b: &UINode);

    fn start_visit_window(&mut self, w: &UINode);

    fn start_visit_label(&mut self, l: &UINode);

    fn start_visit_text_block(&mut self, t: &UINode);

    fn start_visit_grid(&mut self, g: &UINode);

    fn start_visit_grid_cols(&mut self, g: &UINode);

    fn start_visit_grid_row(&mut self, g: &UINode);

    fn start_visit_col_def(&mut self, g: &UINode);

    fn start_visit_row_def(&mut self, g: &UINode);

    fn start_visit_content_page(&mut self, g: &UINode);

    fn start_visit_unknown(&mut self, g: &UINode);

    fn start_visit_stack(&mut self, g: &UINode);

    fn visit_button(&mut self, b: &UINode);

    fn visit_window(&mut self, w: &UINode);

    fn visit_label(&mut self, l: &UINode);

    fn visit_text_block(&mut self, t: &UINode);

    fn visit_grid(&mut self, g: &UINode);

    fn visit_grid_cols(&mut self, g: &UINode);

    fn visit_grid_row(&mut self, g: &UINode);

    fn visit_col_def(&mut self, g: &UINode);

    fn visit_row_def(&mut self, g: &UINode);

    fn visit_content_page(&mut self, g: &UINode);

    fn visit_unknown(&mut self, g: &UINode);

    fn visit_stack(&mut self, g: &UINode);
}

/// Enters a node through the hook its kind selects.
fn dispatch_start<V: Visitor>(visitor: &mut V, n: &UINode) {
    match n.kind {
        UIKind::Window => visitor.start_visit_window(n),
        UIKind::ContentPage => visitor.start_visit_content_page(n),
        UIKind::Label => visitor.start_visit_label(n),
        UIKind::TextBlock => visitor.start_visit_text_block(n),
        UIKind::Button => visitor.start_visit_button(n),
        UIKind::Grid => visitor.start_visit_grid(n),
        UIKind::GridColumnDefinitions => visitor.start_visit_grid_cols(n),
        UIKind::GridRowDefinitions => visitor.start_visit_grid_row(n),
        UIKind::ColumnDefinition => visitor.start_visit_col_def(n),
        UIKind::RowDefinition => visitor.start_visit_row_def(n),
        UIKind::StackLayout => visitor.start_visit_stack(n),
        UIKind::Unknown => visitor.start_visit_unknown(n),
    }
}

/// Leaves a node through the hook its kind selects.
fn dispatch_end<V: Visitor>(visitor: &mut V, n: &UINode) {
    match n.kind {
        UIKind::Window => visitor.visit_window(n),
        UIKind::ContentPage => visitor.visit_content_page(n),
        UIKind::Label => visitor.visit_label(n),
        UIKind::TextBlock => visitor.visit_text_block(n),
        UIKind::Button => visitor.visit_button(n),
        UIKind::Grid => visitor.visit_grid(n),
        UIKind::GridColumnDefinitions => visitor.visit_grid_cols(n),
        UIKind::GridRowDefinitions => visitor.visit_grid_row(n),
        UIKind::ColumnDefinition => visitor.visit_col_def(n),
        UIKind::RowDefinition => visitor.visit_row_def(n),
        UIKind::StackLayout => visitor.visit_stack(n),
        UIKind::Unknown => visitor.visit_unknown(n),
    }
}

impl UITree {
    /// Drives a visitor over the subtree at `i` in the canonical order:
    /// the kind-specific entry hook, every child in document order, then
    /// the kind-specific exit hook — the callback sequence `spec_visit`
    /// describes.
    pub fn accept<V: Visitor>(&self, i: usize, visitor: &mut V)
        requires
            wf_arena(self.nodes@),
            (i as int) < self.nodes@.len(),
        decreases self.nodes@.len() - i,
    {
        dispatch_start(visitor, &self.nodes[i]);
        let n = self.nodes[i].children.len();
        let mut j: usize = 0;
        while j < n
            invariant
                wf_arena(self.nodes@),
                (i as int) < self.nodes@.len(),
                0 <= j <= n == num_children(self.nodes@, i as int),
            decreases n - j,
        {
            let c = self.nodes[i].children[j];
            assert((i as int) < child_at(self.nodes@, i as int, j as int) < self.nodes@.len());
            assert(c as int == child_at(self.nodes@, i as int, j as int));
            self.accept(c, visitor);
            j = j + 1;
        }
        dispatch_end(visitor, &self.nodes[i]);
    }
}

} // verus!
