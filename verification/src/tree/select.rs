use crate::game::{GameState, UNIT};
use crate::tree::node::NodeView;
use crate::tree::Tree;
use vstd::prelude::*;

verus! {

impl Tree {
    /// An edge that ends the scan at once: its move has not been explored, or
    /// its child is a proven loss for the opponent who is to move there.
    pub open spec fn forced(nodes: Seq<NodeView>, i: int, e: int) -> bool {
        let c = Self::child(nodes, i, e);
        c == -1 || nodes[c].state == GameState::Loss
    }

    /// The first forced edge of node `i` at or after edge `from`; the number of
    /// edges where there is none.
    pub open spec fn first_forced(nodes: Seq<NodeView>, i: int, from: int) -> int
        decreases nodes[i].actions.len() - from,
    {
        if from >= nodes[i].actions.len() {
            nodes[i].actions.len() as int
        } else if Self::forced(nodes, i, from) {
            from
        } else {
            Self::first_forced(nodes, i, from + 1)
        }
    }

    /// The score of edge `e` of node `i`: the child's mean value, plus the
    /// exploration term weighted by the edge's prior and divided by one more
    /// than the child's visits. Means and priors are in units of [`UNIT`];
    /// both quotients round towards zero.
    pub open spec fn score(nodes: Seq<NodeView>, i: int, e: int, exploration: int) -> int {
        let c = Self::child(nodes, i, e);
        nodes[c].q() + (exploration * nodes[i].actions[e].policy()) / (UNIT * (1
            + nodes[c].visits))
    }

    /// Every child of node `i` is a proven win for the opponent.
    pub open spec fn all_won(nodes: Seq<NodeView>, i: int) -> bool {
        forall|e: int|
            0 <= e < nodes[i].actions.len() ==> nodes[#[trigger] Self::child(nodes, i, e)].state
                == GameState::Win
    }

    /// `action` is the edge that selection picks at node `i`: the first forced
    /// edge where there is one, and otherwise the first edge among those of
    /// the greatest score.
    pub open spec fn selects(nodes: Seq<NodeView>, i: int, exploration: int, action: int) -> bool {
        let forced = Self::first_forced(nodes, i, 0);
        &&& 0 <= action < nodes[i].actions.len()
        &&& forced < nodes[i].actions.len() ==> action == forced
        &&& forced >= nodes[i].actions.len() ==> {
            &&& forall|e: int|
                0 <= e < nodes[i].actions.len() ==> #[trigger] Self::score(nodes, i, e, exploration)
                    <= Self::score(nodes, i, action, exploration)
            &&& forall|e: int|
                0 <= e < action ==> #[trigger] Self::score(nodes, i, e, exploration) < Self::score(
                    nodes,
                    i,
                    action,
                    exploration,
                )
        }
    }

    /// What selection concludes about node `i`: a child that is lost for the
    /// opponent proves a win, children that are all won by the opponent prove
    /// a loss, and anything else leaves the node's state as it is. An edge
    /// without a child ends the scan before either is concluded.
    pub open spec fn verdict(nodes: Seq<NodeView>, i: int) -> GameState {
        let forced = Self::first_forced(nodes, i, 0);
        if forced < nodes[i].actions.len() {
            if Self::child(nodes, i, forced) != -1 {
                GameState::Win
            } else {
                nodes[i].state
            }
        } else if Self::all_won(nodes, i) {
            GameState::Loss
        } else {
            nodes[i].state
        }
    }

    /// The first forced edge is the forced edge that no forced edge precedes.
    pub proof fn lemma_first_forced(nodes: Seq<NodeView>, i: int, from: int, e: int)
        requires
            0 <= from <= e < nodes[i].actions.len(),
            Self::forced(nodes, i, e),
            forall|j: int| from <= j < e ==> !Self::forced(nodes, i, j),
        ensures
            Self::first_forced(nodes, i, from) == e,
        decreases e - from,
    {
        if from < e {
            Self::lemma_first_forced(nodes, i, from + 1, e);
        }
    }

    /// What the first forced edge is: an edge that is forced, after edges that
    /// are not; or none at all, after no forced edge.
    pub proof fn lemma_first_forced_found(nodes: Seq<NodeView>, i: int, from: int)
        requires
            0 <= from <= nodes[i].actions.len(),
        ensures
            from <= Self::first_forced(nodes, i, from) <= nodes[i].actions.len(),
            Self::first_forced(nodes, i, from) < nodes[i].actions.len() ==> Self::forced(
                nodes,
                i,
                Self::first_forced(nodes, i, from),
            ),
            forall|e: int|
                from <= e < Self::first_forced(nodes, i, from) ==> !Self::forced(nodes, i, e),
        decreases nodes[i].actions.len() - from,
    {
        if from < nodes[i].actions.len() && !Self::forced(nodes, i, from) {
            Self::lemma_first_forced_found(nodes, i, from + 1);
        }
    }

    /// Without a forced edge the scan runs to its end.
    proof fn lemma_none_forced(nodes: Seq<NodeView>, i: int, from: int)
        requires
            0 <= from,
            forall|j: int| from <= j < nodes[i].actions.len() ==> !Self::forced(nodes, i, j),
        ensures
            Self::first_forced(nodes, i, from) >= nodes[i].actions.len(),
        decreases nodes[i].actions.len() - from,
    {
        if from < nodes[i].actions.len() {
            Self::lemma_none_forced(nodes, i, from + 1);
        }
    }

    /// Selection is decided by the arena and the exploration term: no two
    /// edges are both the one it picks.
    pub proof fn lemma_selects_one(
        nodes: Seq<NodeView>,
        i: int,
        exploration: int,
        first: int,
        second: int,
    )
        requires
            Self::selects(nodes, i, exploration, first),
            Self::selects(nodes, i, exploration, second),
        ensures
            first == second,
    {
        if Self::first_forced(nodes, i, 0) >= nodes[i].actions.len() {
            if first < second {
                assert(Self::score(nodes, i, first, exploration) < Self::score(
                    nodes,
                    i,
                    second,
                    exploration,
                ));
                assert(Self::score(nodes, i, second, exploration) <= Self::score(
                    nodes,
                    i,
                    first,
                    exploration,
                ));
            }
            if second < first {
                assert(Self::score(nodes, i, second, exploration) < Self::score(
                    nodes,
                    i,
                    first,
                    exploration,
                ));
                assert(Self::score(nodes, i, first, exploration) <= Self::score(
                    nodes,
                    i,
                    second,
                    exploration,
                ));
            }
        }
    }

    /// A node whose moves have all been explored, and lead without exception
    /// to positions that the opponent has won, is proven lost.
    pub proof fn lemma_all_won_is_lost(nodes: Seq<NodeView>, i: int)
        requires
            forall|e: int|
                0 <= e < nodes[i].actions.len() ==> #[trigger] Self::child(nodes, i, e) != -1
                    && nodes[Self::child(nodes, i, e)].state == GameState::Win,
        ensures
            Self::verdict(nodes, i) == GameState::Loss,
    {
        assert forall|j: int| 0 <= j < nodes[i].actions.len() implies !Self::forced(
            nodes,
            i,
            j,
        ) by {
            assert(Self::child(nodes, i, j) != -1);
        }
        Self::lemma_none_forced(nodes, i, 0);
    }

    /// A child that is proven lost for the opponent is followed as soon as the
    /// scan meets it: where every edge before edge `e` has a child that is
    /// not such a loss, selection picks edge `e` whatever the scores, and the
    /// node is proven won.
    pub proof fn lemma_lost_child_is_followed(
        nodes: Seq<NodeView>,
        i: int,
        e: int,
        exploration: int,
        action: int,
    )
        requires
            0 <= e < nodes[i].actions.len(),
            Self::child(nodes, i, e) != -1,
            nodes[Self::child(nodes, i, e)].state == GameState::Loss,
            forall|j: int| 0 <= j < e ==> !Self::forced(nodes, i, j),
            Self::selects(nodes, i, exploration, action),
        ensures
            action == e,
            Self::verdict(nodes, i) == GameState::Win,
    {
        Self::lemma_first_forced(nodes, i, 0, e);
    }

    /// Picks the edge to follow from node `index` and books what the scan
    /// proved about the node.
    pub fn select(&mut self, index: i32, exploration: u64) -> (action: usize)
        requires
            old(self).wf(),
            0 <= index < old(self)@.len(),
            old(self)@[index as int].actions.len() > 0,
            Self::children_visited(old(self)@, index as int, -1),
        ensures
            Self::selects(old(self)@, index as int, exploration as int, action as int),
            final(self)@ == old(self)@.update(
                index as int,
                NodeView {
                    state: Self::verdict(old(self)@, index as int),
                    ..old(self)@[index as int]
                },
            ),
            final(self).root() == old(self).root(),
            final(self).spec_table() == old(self).spec_table(),
            final(self).wf(),
    {
        let ghost nodes = self@;
        let ghost i = index as int;
        let count = self.node(index).actions().len();
        let mut best: usize = 0;
        let mut max: i128 = i128::MIN;
        let mut proven_win = true;
        let mut e: usize = 0;
        while e < count
            invariant
                *self == *old(self),
                nodes == self@,
                i == index as int,
                self.wf(),
                0 <= index < nodes.len(),
                count == nodes[i].actions.len(),
                count > 0,
                Self::children_visited(nodes, i, -1),
                e <= count,
                Self::first_forced(nodes, i, 0) == Self::first_forced(nodes, i, e as int),
                proven_win <==> forall|j: int|
                    0 <= j < e ==> nodes[#[trigger] Self::child(nodes, i, j)].state
                        == GameState::Win,
                e == 0 ==> best == 0 && max == i128::MIN,
                e > 0 ==> best < e && max == Self::score(nodes, i, best as int, exploration as int),
                forall|j: int|
                    0 <= j < e ==> #[trigger] Self::score(nodes, i, j, exploration as int) <= max,
                forall|j: int|
                    0 <= j < best ==> #[trigger] Self::score(nodes, i, j, exploration as int) < max,
            decreases count - e,
        {
            let action = self.edge(index, e);
            let ptr = action.ptr();
            let policy = action.policy();
            assert(ptr == Self::child(nodes, i, e as int));
            assert(Self::linked(nodes, i, e as int));
            if ptr == -1 {
                proof {
                    assert(self@ =~= nodes.update(
                        i,
                        NodeView { state: Self::verdict(nodes, i), ..nodes[i] },
                    ));
                }
                return e;
            }
            let child = self.node(ptr);
            let state = child.game_state();
            if state == GameState::Loss {
                self.node_mut(index).set_game_state(GameState::Win);
                proof {
                    Self::lemma_stats_shaped(nodes, self@);
                }
                return e;
            }
            if state != GameState::Win {
                proven_win = false;
            }
            let visits = child.visits();
            assert(nodes[ptr as int].wf());
            let q = child.q();
            assert((exploration as u128) * (policy as u128) <= 0xffff_ffff_ffff_ffffu128 * 0xffffu128)
                by (nonlinear_arith)
                requires
                    exploration <= 0xffff_ffff_ffff_ffffu64,
                    policy <= 0xffffu16,
            ;
            assert((UNIT as u128) * (1 + visits as u128) <= 0xffffu128 * 0x1_0000_0000_0000_0000u128
                && (UNIT as u128) * (1 + visits as u128) > 0) by (nonlinear_arith)
                requires
                    visits <= 0xffff_ffff_ffff_ffffu64,
                    UNIT == 65_535,
            ;
            let bonus = ((exploration as u128) * (policy as u128)) / ((UNIT as u128) * (1
                + visits as u128));
            let uct = q as i128 + bonus as i128;
            assert(uct == Self::score(nodes, i, e as int, exploration as int));
            if max < uct {
                best = e;
                max = uct;
            }
            e = e + 1;
        }
        if proven_win {
            self.node_mut(index).set_game_state(GameState::Loss);
        }
        proof {
            assert(Self::first_forced(nodes, i, count as int) == count);
            assert(self@ =~= nodes.update(
                i,
                NodeView { state: Self::verdict(nodes, i), ..nodes[i] },
            ));
            Self::lemma_stats_shaped(nodes, self@);
        }
        best
    }
}

} // verus!
