use crate::game::{Game, GameState};
use crate::search::Search;
use crate::tree::edge::Edge;
use crate::tree::node::NodeView;
use crate::tree::Tree;
use vstd::prelude::*;

verus! {

impl<G: Game> Search<G> {
    /// A child that is proven lost for the opponent ends the scan. Let a
    /// pass go through an expanded node at which edge `e` leads to such a
    /// child, while every edge before it has a child that is no such loss.
    /// Then the pass follows edge `e` and marks the node as won. It turns
    /// back at the child, so that no node is made, and the other edges of the
    /// node are as they were: a move that was not explored before is not
    /// explored now.
    pub proof fn lemma_lost_child_wins(
        before: Seq<NodeView>,
        after: Seq<NodeView>,
        index: int,
        pos: G,
        term: int,
        action: int,
        reward: int,
        path: Seq<int>,
        e: int,
    )
        requires
            Tree::shaped(before),
            0 <= index < before.len() <= after.len(),
            Self::followed(before, after, index, pos, term, action, reward),
            Self::traced(before, after, index, reward, path),
            path.len() > 1,
            path[1] == Tree::child(after, index, action),
            0 <= e < before[index].actions.len(),
            Tree::child(before, index, e) != -1,
            before[Tree::child(before, index, e)].state == GameState::Loss,
            forall|j: int| 0 <= j < e ==> !Tree::forced(before, index, j),
        ensures
            action == e,
            after[index].state == GameState::Win,
            after.len() == before.len(),
            path == seq![index, Tree::child(before, index, e)],
            forall|j: int|
                0 <= j < before[index].actions.len() && j != e ==> #[trigger] after[index].actions[j]
                    == before[index].actions[j],
    {
        let child = Tree::child(before, index, e);
        assert(Self::opened(before, index, pos) == before);
        Tree::lemma_lost_child_is_followed(before, index, e, term, action);
        assert(Tree::linked(before, index, e));
        assert(Self::passed_at(before, after, reward, path, 1));
        assert(Self::halts(before, child));
        assert(path =~= seq![index, child]);
    }

    /// A node whose moves have all been explored and lead to positions that
    /// the opponent has won is lost. A pass through such a node marks it as
    /// lost and leaves the states of its children as they are.
    pub proof fn lemma_all_won_loses(
        before: Seq<NodeView>,
        after: Seq<NodeView>,
        index: int,
        pos: G,
        term: int,
        action: int,
        reward: int,
        path: Seq<int>,
    )
        requires
            Tree::shaped(before),
            0 <= index < before.len() <= after.len(),
            Self::followed(before, after, index, pos, term, action, reward),
            Self::traced(before, after, index, reward, path),
            before[index].actions.len() > 0,
            forall|e: int|
                0 <= e < before[index].actions.len() ==> #[trigger] Tree::child(before, index, e)
                    != -1 && before[Tree::child(before, index, e)].state == GameState::Win,
        ensures
            after[index].state == GameState::Loss,
            0 <= action < before[index].actions.len(),
            forall|e: int|
                0 <= e < before[index].actions.len() ==> after[#[trigger] Tree::child(
                    before,
                    index,
                    e,
                )].state == GameState::Win,
    {
        assert(Self::opened(before, index, pos) == before);
        Tree::lemma_all_won_is_lost(before, index);
        assert forall|e: int| 0 <= e < before[index].actions.len() implies after[#[trigger] Tree::child(
            before,
            index,
            e,
        )].state == GameState::Win by {
            let child = Tree::child(before, index, e);
            assert(Tree::linked(before, index, e));
            assert(Self::left(before, after, path, child));
        }
    }

    /// The position after move number `e` of `pos`, in the order of its legal
    /// moves.
    pub open spec fn after_move(pos: G, e: int) -> G {
        pos.spec_make_move(pos.spec_legal_moves()[e])
    }

    /// None of the first `n` moves of `pos` wins at once: none leads to a
    /// position that is lost for the side to move there.
    pub open spec fn none_wins(pos: G, n: int) -> bool {
        forall|e: int|
            0 <= e < n && e < pos.spec_legal_moves().len() ==> (#[trigger] Self::after_move(
                pos,
                e,
            )).spec_game_state() != GameState::Loss
    }

    /// Every move of `pos` leads to a position that the side to move there
    /// has won.
    pub open spec fn lost_in_one(pos: G) -> bool {
        &&& pos.spec_game_state() == GameState::Ongoing
        &&& forall|e: int|
            0 <= e < pos.spec_legal_moves().len() ==> (#[trigger] Self::after_move(
                pos,
                e,
            )).spec_game_state() == GameState::Win
    }

    /// Move number `w` of `pos` wins at once, and no move before it does.
    pub open spec fn won_in_one(pos: G, w: int) -> bool {
        &&& pos.spec_game_state() == GameState::Ongoing
        &&& 0 <= w < pos.spec_legal_moves().len()
        &&& Self::none_wins(pos, w)
        &&& Self::after_move(pos, w).spec_game_state() == GameState::Loss
    }

    /// The arena of a search for `pos` whose first `n` passes from the fresh
    /// root did no more than to value the root and to explore the first
    /// `n - 1` moves, one each: the root, which has counted the passes and is
    /// not decided; and a child for each of these moves, in their order,
    /// with the state of the position after the move and one visit. The
    /// other moves are unexplored.
    pub open spec fn explored(nodes: Seq<NodeView>, pos: G, n: int) -> bool {
        let moves = pos.spec_legal_moves();
        &&& nodes.len() == n
        &&& nodes[0].visits == n
        &&& nodes[0].state == GameState::Ongoing
        &&& nodes[0].actions.len() == (if n == 1 {
            0
        } else {
            moves.len()
        })
        &&& forall|e: int|
            0 <= e < nodes[0].actions.len() ==> {
                &&& (#[trigger] nodes[0].actions[e]).mov() == moves[e]
                &&& nodes[0].actions[e].ptr() == (if e < n - 1 {
                    e + 1
                } else {
                    -1
                })
            }
        &&& forall|j: int|
            1 <= j < n ==> (#[trigger] nodes[j]).state == Self::after_move(
                pos,
                j - 1,
            ).spec_game_state() && nodes[j].visits == 1
    }

    /// The first pass from the fresh root of a search books its reward there
    /// and does nothing else.
    pub proof fn lemma_explored_start(before: Seq<NodeView>, after: Seq<NodeView>, pos: G, reward: int)
        requires
            before == seq![Tree::fresh(GameState::Ongoing, pos.spec_hash(), -1i32)],
            Self::walked(before, after, 0, pos, reward),
        ensures
            Self::explored(after, pos, 1),
    {
    }

    /// While none of the moves explored so far wins at once and moves are
    /// left, a pass from the root explores the next move and leaves the root
    /// undecided.
    pub proof fn lemma_explored_step(
        before: Seq<NodeView>,
        after: Seq<NodeView>,
        pos: G,
        n: int,
        reward: int,
    )
        requires
            1 <= n <= pos.spec_legal_moves().len(),
            Self::none_wins(pos, n - 1),
            Self::explored(before, pos, n),
            Self::walked(before, after, 0, pos, reward),
        ensures
            Self::explored(after, pos, n + 1),
    {
        let moves = pos.spec_legal_moves();
        let ready = Self::opened(before, 0, pos);
        assert forall|e: int| 0 <= e < moves.len() implies {
            &&& (#[trigger] ready[0].actions[e]).mov() == moves[e]
            &&& ready[0].actions[e].ptr() == (if e < n - 1 {
                e + 1
            } else {
                -1
            })
        } by {
            if n == 1 {
                Edge::lemma_new(-1i32, moves[e], pos.spec_policy(moves)[e]);
            }
        }
        assert(ready[0].actions.len() == moves.len());
        assert forall|j: int| 0 <= j < n - 1 implies !Tree::forced(ready, 0, j) by {
            assert(ready[0].actions[j].ptr() == j + 1);
            assert(ready[j + 1] == before[j + 1]);
            assert(Self::after_move(pos, j).spec_game_state() != GameState::Loss);
        }
        assert(Tree::forced(ready, 0, n - 1)) by {
            assert(ready[0].actions[n - 1].ptr() == -1);
        }
        Tree::lemma_first_forced(ready, 0, 0, n - 1);
        let (term, action, path) = choose|term: int, action: int, path: Seq<int>|
            Self::followed(before, after, 0, pos, term, action, reward) && Self::traced(
                before,
                after,
                0,
                reward,
                path,
            ) && path.len() > 1 && path[1] == Tree::child(after, 0, action);
        assert(action == n - 1);
        assert(Tree::child(ready, 0, action) == -1);
        assert(ready[0].actions[action].mov() == moves[n - 1]);
        assert(Tree::verdict(ready, 0) == ready[0].state);
        assert(Self::passed_at(before, after, reward, path, 0));
        assert(Self::passed_at(before, after, reward, path, 1));
        assert(path =~= seq![0, n]);
        assert(after.len() == n + 1);
        assert forall|e: int| 0 <= e < after[0].actions.len() implies {
            &&& (#[trigger] after[0].actions[e]).mov() == moves[e]
            &&& after[0].actions[e].ptr() == (if e < n {
                e + 1
            } else {
                -1
            })
        } by {
            if e != action {
                assert(after[0].actions[e] == ready[0].actions[e]);
            } else {
                assert(Tree::child(after, 0, action) == n);
            }
        }
        assert forall|j: int| 1 <= j < n + 1 implies (#[trigger] after[j]).state
            == Self::after_move(pos, j - 1).spec_game_state() && after[j].visits == 1 by {
            if j < n {
                assert(Self::left(before, after, path, j));
                assert(!path.contains(j)) by {
                    if path.contains(j) {
                        let k = choose|k: int| 0 <= k < path.len() && path[k] == j;
                    }
                }
                assert(before[j].visits == 1);
            }
        }
    }

    /// Once every move is explored at the root of a search for a position
    /// that is lost in one move, the next pass marks the root as lost and
    /// makes no node.
    pub proof fn lemma_explored_lost(before: Seq<NodeView>, after: Seq<NodeView>, pos: G, reward: int)
        requires
            Self::lost_in_one(pos),
            Self::explored(before, pos, pos.spec_legal_moves().len() as int + 1),
            Self::walked(before, after, 0, pos, reward),
        ensures
            after[0].state == GameState::Loss,
            after.len() == pos.spec_legal_moves().len() + 1,
            after[0].visits == pos.spec_legal_moves().len() + 2,
    {
        let moves = pos.spec_legal_moves();
        pos.lemma_moves_iff_ongoing();
        assert(moves.len() > 0);
        assert(Self::opened(before, 0, pos) == before);
        assert forall|e: int| 0 <= e < before[0].actions.len() implies #[trigger] Tree::child(
            before,
            0,
            e,
        ) != -1 && before[Tree::child(before, 0, e)].state == GameState::Win by {
            assert(before[0].actions[e].ptr() == e + 1);
            assert(before[e + 1].state == Self::after_move(pos, e).spec_game_state());
        }
        Tree::lemma_all_won_is_lost(before, 0);
        let (term, action, path) = choose|term: int, action: int, path: Seq<int>|
            Self::followed(before, after, 0, pos, term, action, reward) && Self::traced(
                before,
                after,
                0,
                reward,
                path,
            ) && path.len() > 1 && path[1] == Tree::child(after, 0, action);
        assert(before[0].actions[action].ptr() == action + 1);
        assert(Tree::child(before, 0, action) == action + 1);
        assert(Self::passed_at(before, after, reward, path, 0));
        assert(Self::passed_at(before, after, reward, path, 1));
        assert(before[action + 1].state == Self::after_move(pos, action).spec_game_state());
        assert(Self::halts(before, path[1]));
    }

    /// Once a move that wins at once is explored at the root of a search,
    /// and no move before it wins so, the next pass follows that move and
    /// marks the root as won. It makes no node and explores no other move,
    /// and the move is then the one to play.
    pub proof fn lemma_explored_won(
        before: Seq<NodeView>,
        after: Seq<NodeView>,
        pos: G,
        w: int,
        reward: int,
    )
        requires
            Self::won_in_one(pos, w),
            Self::explored(before, pos, w + 2),
            Self::walked(before, after, 0, pos, reward),
        ensures
            after[0].state == GameState::Win,
            after.len() == w + 2,
            after[0].visits == w + 3,
            Self::favours(after, 0, w),
            after[0].actions[w].mov() == pos.spec_legal_moves()[w],
            forall|e: int|
                w < e < after[0].actions.len() ==> (#[trigger] after[0].actions[e]).ptr() == -1,
    {
        let moves = pos.spec_legal_moves();
        assert(Self::opened(before, 0, pos) == before);
        assert forall|j: int| 0 <= j < w implies !Tree::forced(before, 0, j) by {
            assert(before[0].actions[j].ptr() == j + 1);
            assert(before[j + 1].state == Self::after_move(pos, j).spec_game_state());
            assert(Self::after_move(pos, j).spec_game_state() != GameState::Loss);
        }
        assert(before[0].actions[w].ptr() == w + 1);
        assert(before[w + 1].state == Self::after_move(pos, w).spec_game_state());
        let (term, action, path) = choose|term: int, action: int, path: Seq<int>|
            Self::followed(before, after, 0, pos, term, action, reward) && Self::traced(
                before,
                after,
                0,
                reward,
                path,
            ) && path.len() > 1 && path[1] == Tree::child(after, 0, action);
        Tree::lemma_lost_child_is_followed(before, 0, w, term, action);
        assert(Self::passed_at(before, after, reward, path, 0));
        assert(Self::passed_at(before, after, reward, path, 1));
        assert(Self::halts(before, path[1]));
        assert(path =~= seq![0, w + 1]);
        assert(after.len() == w + 2);
        assert forall|e: int| 0 <= e < after[0].actions.len() && e != w implies (
        #[trigger] after[0].actions[e]).ptr() == before[0].actions[e].ptr() by {
            assert(after[0].actions[e] == before[0].actions[e]);
        }
        assert(Tree::child(after, 0, w) == w + 1);
        assert(after[w + 1].visits == 2);
        assert forall|e: int| 0 <= e < after[0].actions.len() implies #[trigger] Self::visit_key(
            after,
            0,
            e,
        ) <= 2 && (e < w ==> Self::visit_key(after, 0, e) < 2) by {
            if e < w {
                assert(after[0].actions[e].ptr() == e + 1);
                assert(Self::left(before, after, path, e + 1));
                assert(!path.contains(e + 1)) by {
                    if path.contains(e + 1) {
                        let k = choose|k: int| 0 <= k < path.len() && path[k] == e + 1;
                    }
                }
                assert(before[e + 1].visits == 1);
            } else if e > w {
                assert(after[0].actions[e].ptr() == -1);
            }
        }
        assert(Self::visit_key(after, 0, w) == 2);
    }

    /// The passes from the fresh root of a search first value the root and
    /// then explore the moves in their order, one each, as long as none of
    /// the moves explored wins at once: the arena after `n` such passes is
    /// that of [`Self::explored`].
    pub proof fn lemma_explored(pos: G, states: Seq<Seq<NodeView>>, rewards: Seq<int>, n: int)
        requires
            Self::chained(pos, 0, states, rewards),
            states[0] == seq![Tree::fresh(GameState::Ongoing, pos.spec_hash(), -1i32)],
            1 <= n <= pos.spec_legal_moves().len() + 1,
            n <= rewards.len(),
            Self::none_wins(pos, n - 2),
        ensures
            Self::explored(states[n], pos, n),
        decreases n,
    {
        if n == 1 {
            assert(Self::pass_at(pos, 0, states, rewards, 0));
            Self::lemma_explored_start(states[0], states[1], pos, rewards[0]);
        } else {
            Self::lemma_explored(pos, states, rewards, n - 1);
            assert(Self::pass_at(pos, 0, states, rewards, n - 1));
            Self::lemma_explored_step(states[n - 1], states[n], pos, n - 1, rewards[n - 1]);
        }
    }

    /// A position that is lost in one move is proven lost as soon as its
    /// moves are explored. Of the passes from the fresh root of a search for
    /// such a position with `k` moves, the first values the root, the next
    /// `k` explore the moves, and the one after them marks the root as lost.
    /// No pass follows: the arena then holds the root and its `k` children,
    /// and the root has counted `k + 2` passes. Before that the arena is that
    /// of [`Self::explored`].
    pub proof fn lemma_lost_in_one(pos: G, end: Seq<NodeView>)
        requires
            Self::lost_in_one(pos),
            Self::ran(seq![Tree::fresh(GameState::Ongoing, pos.spec_hash(), -1i32)], end, 0, pos),
        ensures
            end[0].visits <= pos.spec_legal_moves().len() + 2,
            end[0].visits == pos.spec_legal_moves().len() + 2 ==> end[0].state == GameState::Loss
                && end.len() == pos.spec_legal_moves().len() + 1,
            1 <= end[0].visits < pos.spec_legal_moves().len() + 2 ==> Self::explored(
                end,
                pos,
                end[0].visits as int,
            ),
    {
        let k = pos.spec_legal_moves().len() as int;
        let start = seq![Tree::fresh(GameState::Ongoing, pos.spec_hash(), -1i32)];
        let (states, rewards) = choose|states: Seq<Seq<NodeView>>, rewards: Seq<int>| #[trigger]
            Self::chained(pos, 0, states, rewards) && states[0] == start && states.last() == end
                && rewards.len() == Self::passes(start, end, 0);
        if rewards.len() >= k + 2 {
            Self::lemma_explored(pos, states, rewards, k + 1);
            assert(Self::pass_at(pos, 0, states, rewards, k + 1));
            Self::lemma_explored_lost(states[k + 1], states[k + 2], pos, rewards[k + 1]);
            if rewards.len() > k + 2 {
                assert(!states[k + 2][0].is_terminal());
            }
        } else if rewards.len() >= 1 {
            Self::lemma_explored(pos, states, rewards, rewards.len() as int);
        }
    }

    /// A move that wins at once is followed as soon as the scan meets its
    /// child. Let move number `w` of `pos` win at once, and no move before
    /// it. Of the passes from the fresh root of a search for `pos`, the
    /// first values the root, the next `w + 1` explore the moves up to that
    /// one, and the one after them follows it and marks the root as won. No
    /// pass follows and no further move is explored: the arena then holds
    /// the root and `w + 1` children, the root has counted `w + 3` passes,
    /// and the move is the one to play. Before that the arena is that of
    /// [`Self::explored`].
    pub proof fn lemma_won_in_one(pos: G, w: int, end: Seq<NodeView>)
        requires
            Self::won_in_one(pos, w),
            Self::ran(seq![Tree::fresh(GameState::Ongoing, pos.spec_hash(), -1i32)], end, 0, pos),
        ensures
            end[0].visits <= w + 3,
            end[0].visits == w + 3 ==> {
                &&& end[0].state == GameState::Win
                &&& end.len() == w + 2
                &&& Self::favours(end, 0, w)
                &&& end[0].actions[w].mov() == pos.spec_legal_moves()[w]
            },
            1 <= end[0].visits < w + 3 ==> Self::explored(end, pos, end[0].visits as int),
    {
        let start = seq![Tree::fresh(GameState::Ongoing, pos.spec_hash(), -1i32)];
        let (states, rewards) = choose|states: Seq<Seq<NodeView>>, rewards: Seq<int>| #[trigger]
            Self::chained(pos, 0, states, rewards) && states[0] == start && states.last() == end
                && rewards.len() == Self::passes(start, end, 0);
        if rewards.len() >= w + 3 {
            Self::lemma_explored(pos, states, rewards, w + 2);
            assert(Self::pass_at(pos, 0, states, rewards, w + 2));
            Self::lemma_explored_won(states[w + 2], states[w + 3], pos, w, rewards[w + 2]);
            if rewards.len() > w + 3 {
                assert(!states[w + 3][0].is_terminal());
            }
        } else if rewards.len() >= 1 {
            Self::lemma_explored(pos, states, rewards, rewards.len() as int);
        }
    }
}

} // verus!
