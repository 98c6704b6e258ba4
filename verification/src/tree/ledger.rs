use crate::game::{GameState, UNIT};
use crate::tree::node::NodeView;
use crate::tree::Tree;
use vstd::prelude::*;

verus! {

impl Tree {
    /// What the child of edge `e` of node `i` adds to the books of the node:
    /// its visits, or its value where `values` is set; nothing where the edge
    /// has no child.
    pub open spec fn edge_sum(nodes: Seq<NodeView>, i: int, e: int, values: bool) -> int {
        let c = Self::child(nodes, i, e);
        if c == -1 {
            0
        } else if values {
            nodes[c].value as int
        } else {
            nodes[c].visits as int
        }
    }

    /// The visits, or the values, of the children along the first `k` edges
    /// of node `i`.
    pub open spec fn children_sum_upto(nodes: Seq<NodeView>, i: int, k: int, values: bool) -> int
        decreases k,
    {
        if k <= 0 {
            0
        } else {
            Self::children_sum_upto(nodes, i, k - 1, values) + Self::edge_sum(
                nodes,
                i,
                k - 1,
                values,
            )
        }
    }

    /// The visits of all children of node `i` together.
    pub open spec fn children_visits(nodes: Seq<NodeView>, i: int) -> int {
        Self::children_sum_upto(nodes, i, nodes[i].actions.len() as int, false)
    }

    /// The values of all children of node `i` together.
    pub open spec fn children_values(nodes: Seq<NodeView>, i: int) -> int {
        Self::children_sum_upto(nodes, i, nodes[i].actions.len() as int, true)
    }

    /// Every child of node `i`, but for node `hole`, has been visited.
    pub open spec fn children_visited(nodes: Seq<NodeView>, i: int, hole: int) -> bool {
        forall|e: int|
            0 <= e < nodes[i].actions.len() && Self::child(nodes, i, e) != -1 && #[trigger] Self::child(
                nodes,
                i,
                e,
            ) != hole ==> nodes[Self::child(nodes, i, e)].visits >= 1
    }

    /// The books of node `i` balance. An unvisited node has no edges. The
    /// first visit of a node stays with the node itself, so its children hold
    /// at most the later ones. While the game is open at the node, every
    /// later visit went on to a child and came back with the child's reward
    /// under the opposite sign: the children hold exactly the later visits,
    /// and the values of the node and of its children cancel but for the
    /// reward of the first visit.
    pub open spec fn balanced_at(nodes: Seq<NodeView>, i: int) -> bool {
        &&& nodes[i].visits == 0 ==> nodes[i].actions.len() == 0
        &&& nodes[i].visits > 0 ==> Self::children_visits(nodes, i) + 1 <= nodes[i].visits
        &&& nodes[i].visits > 0 && nodes[i].state == GameState::Ongoing ==> {
            &&& Self::children_visits(nodes, i) + 1 == nodes[i].visits
            &&& -UNIT <= nodes[i].value + Self::children_values(nodes, i) <= UNIT
        }
    }

    /// The books of node `i` balance and its children, but for node `hole`,
    /// have been visited.
    pub open spec fn sound_at(nodes: Seq<NodeView>, i: int, hole: int) -> bool {
        Self::balanced_at(nodes, i) && Self::children_visited(nodes, i, hole)
    }

    /// The books balance at the root and at every node made after it, and
    /// their children have all been visited: this covers the whole tree below
    /// the root.
    pub open spec fn accounted(nodes: Seq<NodeView>, root: int) -> bool {
        forall|i: int| root <= i < nodes.len() ==> #[trigger] Self::sound_at(nodes, i, -1)
    }

    /// The children of a visited node hold fewer visits than the node: its own
    /// first visit is not passed on to any of them. Where the game is open at
    /// the node they hold all visits but that one, and what they have gained
    /// in value the node has lost, but for the reward of its first visit.
    pub proof fn lemma_children_visits(nodes: Seq<NodeView>, root: int, i: int)
        requires
            Self::accounted(nodes, root),
            0 <= root <= i < nodes.len(),
            nodes[i].visits > 0,
        ensures
            Self::children_visits(nodes, i) <= nodes[i].visits - 1,
            nodes[i].state == GameState::Ongoing ==> Self::children_visits(nodes, i)
                == nodes[i].visits - 1,
            nodes[i].state == GameState::Ongoing ==> -UNIT <= nodes[i].value
                + Self::children_values(nodes, i) <= UNIT,
    {
        assert(Self::sound_at(nodes, i, -1));
    }

    /// No child holds more visits than all children together.
    pub(crate) proof fn lemma_edge_visits_bound(nodes: Seq<NodeView>, i: int, e: int, k: int)
        requires
            0 <= e < k,
        ensures
            0 <= Self::edge_sum(nodes, i, e, false) <= Self::children_sum_upto(nodes, i, k, false),
            0 <= Self::children_sum_upto(nodes, i, e, false),
        decreases k,
    {
        Self::lemma_visits_nonnegative(nodes, i, k - 1);
        if e < k - 1 {
            Self::lemma_edge_visits_bound(nodes, i, e, k - 1);
        } else {
            Self::lemma_visits_nonnegative(nodes, i, e);
        }
    }

    pub(crate) proof fn lemma_visits_nonnegative(nodes: Seq<NodeView>, i: int, k: int)
        ensures
            0 <= Self::children_sum_upto(nodes, i, k, false),
        decreases k,
    {
        if k > 0 {
            Self::lemma_visits_nonnegative(nodes, i, k - 1);
        }
    }

    /// Two nodes whose edges count the same, edge by edge, count the same in
    /// sum.
    pub(crate) proof fn lemma_sum_same(
        before: Seq<NodeView>,
        after: Seq<NodeView>,
        i: int,
        k: int,
        values: bool,
    )
        requires
            forall|e: int|
                0 <= e < k ==> #[trigger] Self::edge_sum(after, i, e, values) == Self::edge_sum(
                    before,
                    i,
                    e,
                    values,
                ),
        ensures
            Self::children_sum_upto(after, i, k, values) == Self::children_sum_upto(
                before,
                i,
                k,
                values,
            ),
        decreases k,
    {
        if k > 0 {
            Self::lemma_sum_same(before, after, i, k - 1, values);
        }
    }

    /// `by` more along edge `at`, and the same along every other edge, is
    /// `by` more in sum.
    pub(crate) proof fn lemma_sum_bumped(
        before: Seq<NodeView>,
        after: Seq<NodeView>,
        i: int,
        k: int,
        at: int,
        by: int,
        values: bool,
    )
        requires
            0 <= at,
            forall|e: int|
                0 <= e < k && e != at ==> #[trigger] Self::edge_sum(after, i, e, values)
                    == Self::edge_sum(before, i, e, values),
            Self::edge_sum(after, i, at, values) == Self::edge_sum(before, i, at, values) + by,
        ensures
            Self::children_sum_upto(after, i, k, values) == Self::children_sum_upto(
                before,
                i,
                k,
                values,
            ) + (if at < k {
                by
            } else {
                0int
            }),
        decreases k,
    {
        if k > 0 {
            Self::lemma_sum_bumped(before, after, i, k - 1, at, by, values);
        }
    }

    /// Edges without children count nothing.
    pub(crate) proof fn lemma_sum_none(nodes: Seq<NodeView>, i: int, k: int, values: bool)
        requires
            forall|e: int| 0 <= e < k ==> #[trigger] Self::child(nodes, i, e) == -1,
        ensures
            Self::children_sum_upto(nodes, i, k, values) == 0,
        decreases k,
    {
        if k > 0 {
            Self::lemma_sum_none(nodes, i, k - 1, values);
            assert(Self::child(nodes, i, k - 1) == -1);
        }
    }

    /// The books of a node depend on the node and on the visits and values of
    /// its children only.
    pub(crate) proof fn lemma_balanced_same(before: Seq<NodeView>, after: Seq<NodeView>, i: int)
        requires
            Self::balanced_at(before, i),
            after[i] == before[i],
            forall|e: int|
                0 <= e < before[i].actions.len() && #[trigger] Self::child(before, i, e) != -1
                    ==> after[Self::child(before, i, e)].visits == before[Self::child(
                    before,
                    i,
                    e,
                )].visits && after[Self::child(before, i, e)].value == before[Self::child(
                    before,
                    i,
                    e,
                )].value,
        ensures
            Self::balanced_at(after, i),
            Self::children_visits(after, i) == Self::children_visits(before, i),
            Self::children_values(after, i) == Self::children_values(before, i),
    {
        assert forall|e: int, values: bool|
            0 <= e < before[i].actions.len() implies #[trigger] Self::edge_sum(after, i, e, values)
            == Self::edge_sum(before, i, e, values) by {
            assert(Self::child(after, i, e) == Self::child(before, i, e));
        }
        Self::lemma_sum_same(before, after, i, before[i].actions.len() as int, false);
        Self::lemma_sum_same(before, after, i, before[i].actions.len() as int, true);
    }
}

} // verus!
