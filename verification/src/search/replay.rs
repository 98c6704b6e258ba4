use crate::game::Game;
use crate::search::Search;
use crate::tree::node::NodeView;
use crate::tree::Tree;
use vstd::prelude::*;

verus! {

impl<G: Game> Search<G> {
    /// The edge that a pass follows is decided by the arena, the position
    /// and the exploration term: two passes from the same arena with the same
    /// term follow the same edge into the same child, and give the node the
    /// same state.
    pub proof fn lemma_follows_one(
        before: Seq<NodeView>,
        first: Seq<NodeView>,
        second: Seq<NodeView>,
        index: int,
        pos: G,
        term: int,
        action: int,
        other: int,
        reward: int,
        gain: int,
    )
        requires
            Self::followed(before, first, index, pos, term, action, reward),
            Self::followed(before, second, index, pos, term, other, gain),
        ensures
            action == other,
            Tree::child(first, index, action) == Tree::child(second, index, other),
            first[index].state == second[index].state,
    {
        Tree::lemma_selects_one(Self::opened(before, index, pos), index, term, action, other);
    }

    /// A pass is decided by the arena, the position, the reward that it
    /// brings and the exploration terms that it selects with: two passes
    /// that agree in these leave the same arena.
    pub proof fn lemma_replays_one(
        before: Seq<NodeView>,
        first: Seq<NodeView>,
        second: Seq<NodeView>,
        index: int,
        pos: G,
        reward: int,
        terms: Seq<int>,
    )
        requires
            Self::replayed(before, first, index, pos, reward, terms),
            Self::replayed(before, second, index, pos, reward, terms),
        ensures
            first == second,
        decreases terms.len(),
    {
        if terms.len() > 0 {
            let ready = Self::opened(before, index, pos);
            let action = choose|action: int| #[trigger]
                Tree::selects(ready, index, terms[0], action) && {
                    let down = Self::lowered(before, index, pos, action);
                    &&& first.len() == down.len() || first.len() == down.len() + 1
                    &&& first[index] == Self::bumped(down[index], reward)
                    &&& Self::replayed(
                        down,
                        first.update(index, down[index]),
                        Tree::child(down, index, action),
                        pos.spec_make_move(down[index].actions[action].mov()),
                        -reward,
                        terms.skip(1),
                    )
                };
            let other = choose|other: int| #[trigger]
                Tree::selects(ready, index, terms[0], other) && {
                    let down = Self::lowered(before, index, pos, other);
                    &&& second.len() == down.len() || second.len() == down.len() + 1
                    &&& second[index] == Self::bumped(down[index], reward)
                    &&& Self::replayed(
                        down,
                        second.update(index, down[index]),
                        Tree::child(down, index, other),
                        pos.spec_make_move(down[index].actions[other].mov()),
                        -reward,
                        terms.skip(1),
                    )
                };
            Tree::lemma_selects_one(ready, index, terms[0], action, other);
            let down = Self::lowered(before, index, pos, action);
            let child = Tree::child(down, index, action);
            let up = first.update(index, down[index]);
            let same = second.update(index, down[index]);
            Self::lemma_replays_one(
                down,
                up,
                same,
                child,
                pos.spec_make_move(down[index].actions[action].mov()),
                -reward,
                terms.skip(1),
            );
            assert(first =~= second) by {
                assert(first.len() == up.len());
                assert(second.len() == same.len());
                assert forall|j: int| 0 <= j < first.len() implies first[j] == second[j] by {
                    if j != index {
                        assert(first[j] == up[j]);
                        assert(second[j] == same[j]);
                    }
                }
            }
        }
    }

    /// Pass number `i` of a row of passes from node `root`, which stands for
    /// `pos`, led from `states[i]` to the next state, brought `rewards[i]`
    /// and selected with the terms `terms[i]`.
    pub open spec fn replayed_at(
        pos: G,
        root: int,
        states: Seq<Seq<NodeView>>,
        rewards: Seq<int>,
        terms: Seq<Seq<int>>,
        i: int,
    ) -> bool {
        Self::replayed(states[i], states[i + 1], root, pos, rewards[i], terms[i])
    }

    /// A search is decided by the arena that it starts from, the position,
    /// and what its passes bring and select with: two rows of passes that
    /// agree in these go through the same states of the arena. Nothing else
    /// enters: with the same evaluations and the same exploration
    /// coefficients a search repeats itself.
    pub proof fn lemma_replays_all(
        pos: G,
        root: int,
        first: Seq<Seq<NodeView>>,
        second: Seq<Seq<NodeView>>,
        rewards: Seq<int>,
        terms: Seq<Seq<int>>,
        n: int,
    )
        requires
            0 <= n <= rewards.len(),
            first[0] == second[0],
            forall|i: int|
                0 <= i < n ==> #[trigger] Self::replayed_at(pos, root, first, rewards, terms, i),
            forall|i: int|
                0 <= i < n ==> #[trigger] Self::replayed_at(pos, root, second, rewards, terms, i),
        ensures
            first[n] == second[n],
        decreases n,
    {
        if n > 0 {
            Self::lemma_replays_all(pos, root, first, second, rewards, terms, n - 1);
            assert(Self::replayed_at(pos, root, first, rewards, terms, n - 1));
            assert(Self::replayed_at(pos, root, second, rewards, terms, n - 1));
            Self::lemma_replays_one(
                first[n - 1],
                first[n],
                second[n],
                root,
                pos,
                rewards[n - 1],
                terms[n - 1],
            );
        }
    }
}

} // verus!
