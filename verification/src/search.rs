use crate::game::{forced, playout, Game, GameState, UNIT};
use crate::helper::{exploration, is_sqrt, Exploration, SearchSettings};
use crate::tree::edge::Edge;
use crate::tree::hash::{HashEntry, HashTable};
use crate::tree::node::{spec_edges, NodeView};
use crate::tree::Tree;
use std::sync::atomic::{AtomicBool, Ordering};
use std::time::Instant;
use vstd::prelude::*;

pub mod forced;
pub mod replay;

verus! {

/// A search: the position it starts from, its arena, and, for the proofs
/// alone, the position that each node of the arena stands for.
pub struct Search<G: Game> {
    root: G,
    tree: Tree,
    positions: Ghost<Seq<G>>,
}

/// Whether the flag has been raised.
pub fn raised(flag: &AtomicBool) -> bool {
    flag.load(Ordering::Relaxed)
}

/// A run goes on after `done` passes while the root is not decided, passes
/// are left in the budget, the flag has not been seen raised and the time is
/// not over.
pub open spec fn spec_goes_on(
    done: usize,
    settings: SearchSettings,
    decided: bool,
    raised: bool,
    elapsed: u128,
) -> bool {
    &&& !decided
    &&& done < settings.max_nodes
    &&& !raised
    &&& match settings.max_time {
        Some(time) => elapsed < time,
        None => true,
    }
}

/// Whether a run goes on after `done` passes, given what it has read: whether
/// the root is decided, whether the flag was raised, and the milliseconds gone
/// by since it began.
pub fn goes_on(
    done: usize,
    settings: &SearchSettings,
    decided: bool,
    raised: bool,
    elapsed: u128,
) -> (on: bool)
    ensures
        on == spec_goes_on(done, *settings, decided, raised, elapsed),
{
    if decided || done >= settings.max_nodes || raised {
        return false;
    }
    match settings.max_time {
        Some(time) => elapsed < time,
        None => true,
    }
}

impl<G: Game> Search<G> {
    /// The position the search starts from.
    pub closed spec fn position(&self) -> G {
        self.root
    }

    /// The arena of the search.
    pub closed spec fn spec_tree(&self) -> Tree {
        self.tree
    }

    /// The position each node stands for, by index.
    pub closed spec fn record(&self) -> Seq<G> {
        self.positions@
    }

    /// The state between passes: the arena is well formed and, unless it is
    /// empty, records play from the search's position, with balanced books
    /// from the root on.
    pub open spec fn wf(&self) -> bool {
        &&& self.spec_tree().wf()
        &&& self.spec_tree()@.len() > 0 ==> {
            &&& Tree::placed(self.spec_tree()@, self.record())
            &&& Tree::proven(self.spec_tree()@, self.record())
            &&& self.record()[self.spec_tree().root() as int] == self.position()
            &&& Tree::accounted(self.spec_tree()@, self.spec_tree().root() as int)
        }
    }

    /// A pass that opens a new node needs room for it in the arena.
    pub open spec fn room(nodes: Seq<NodeView>, index: int) -> bool {
        nodes.len() < i32::MAX || nodes[index].visits == 0 || nodes[index].is_terminal()
    }

    /// What a pass needs when it enters node `index` with position `pos`: the
    /// node stands for `pos`, its visits can still be counted, and the books
    /// balance from the root on; `index` itself may be a child that has not
    /// been visited yet.
    pub open spec fn ready(
        nodes: Seq<NodeView>,
        root: int,
        ps: Seq<G>,
        index: int,
        pos: G,
    ) -> bool {
        &&& nodes.len() <= i32::MAX
        &&& Self::room(nodes, index)
        &&& Tree::shaped(nodes)
        &&& 0 <= root <= index < nodes.len()
        &&& Tree::placed(nodes, ps)
        &&& Tree::proven(nodes, ps)
        &&& ps[index] == pos
        &&& nodes[index].visits < u64::MAX
        &&& forall|i: int| root <= i < nodes.len() ==> #[trigger] Tree::sound_at(nodes, i, index)
    }

    /// A node after one more pass that brought `reward`.
    pub open spec fn bumped(node: NodeView, reward: int) -> NodeView {
        NodeView {
            visits: (node.visits + 1) as u64,
            value: (node.value + reward) as i128,
            ..node
        }
    }

    /// What a pass through `index` leaves of node `j`, as far as the books of
    /// the search need it: its parent and hash stay, and it changes at all
    /// only if it is `index` or lies below it. Which nodes change, and in
    /// what, is said by [`Self::traced`].
    pub open spec fn kept(
        before: Seq<NodeView>,
        after: Seq<NodeView>,
        index: int,
        j: int,
    ) -> bool {
        &&& after[j].parent == before[j].parent
        &&& after[j].hash == before[j].hash
        &&& after[j] != before[j] ==> j == index || (j > index && before[j].parent >= index)
    }

    /// What one pass through node `index` does to the books of the search.
    /// The node gains one visit and the reward; a node that was unvisited or
    /// decided changes in nothing else, and nothing else changes with it. The
    /// reward of a decided node is the utility of its state with the sign
    /// changed, so that it counts for the player who moved there. At most one
    /// node is added, below `index`. Every child in the tree has then been
    /// visited, and the books balance everywhere from the root on, but for
    /// the parent of `index`, which has yet to count the pass. What the pass
    /// does node by node is said by [`Self::walked`].
    pub open spec fn passed(
        before: Seq<NodeView>,
        after: Seq<NodeView>,
        root: int,
        index: int,
        reward: int,
    ) -> bool {
        &&& Tree::shaped(after)
        &&& before.len() <= after.len() <= before.len() + 1
        &&& -UNIT <= reward <= UNIT
        &&& after[index].visits == before[index].visits + 1
        &&& after[index].value == before[index].value + reward
        &&& (before[index].visits == 0 || before[index].is_terminal()) ==> after == before.update(
            index,
            Self::bumped(before[index], reward),
        )
        &&& before[index].is_terminal() ==> reward == -before[index].state.spec_utility()
        &&& Self::kept_all(before, after, index)
        &&& after.len() > before.len() ==> after[before.len() as int].parent >= index
        &&& Self::settled(after, root, index == root, before[index].parent as int)
    }

    /// Every node of `before` is kept in `after`, in the sense of
    /// [`Self::kept`].
    pub open spec fn kept_all(before: Seq<NodeView>, after: Seq<NodeView>, index: int) -> bool {
        forall|j: int| 0 <= j < before.len() ==> #[trigger] Self::kept(before, after, index, j)
    }

    /// From the root on every child has been visited and the books balance,
    /// unless `all` is false, and then but for node `parent`.
    pub open spec fn settled(nodes: Seq<NodeView>, root: int, all: bool, parent: int) -> bool {
        forall|i: int|
            root <= i < nodes.len() ==> #[trigger] Self::settled_at(nodes, i, all, parent)
    }

    /// The children of node `i` have been visited and, unless `all` is false
    /// and the node is `parent`, the node's books balance.
    pub open spec fn settled_at(nodes: Seq<NodeView>, i: int, all: bool, parent: int) -> bool {
        Tree::children_visited(nodes, i, -1) && (all || i != parent ==> Tree::balanced_at(
            nodes,
            i,
        ))
    }

    /// The arena at the moment when node `index`, which stands for `pos`,
    /// chooses among its edges: as `before`, but that a node without edges
    /// has been given those of its position.
    pub open spec fn opened(before: Seq<NodeView>, index: int, pos: G) -> Seq<NodeView> {
        if before[index].actions.len() == 0 {
            before.update(
                index,
                NodeView {
                    actions: spec_edges(
                        pos.spec_legal_moves(),
                        pos.spec_policy(pos.spec_legal_moves()),
                    ),
                    ..before[index]
                },
            )
        } else {
            before
        }
    }

    /// `term` is the exploration term of a node with `visits` visits under
    /// the coefficient `cpuct`: the integer square root of `cpuct * cpuct *
    /// visits`.
    pub open spec fn weighs(cpuct: u32, visits: u64, term: int) -> bool {
        is_sqrt(cpuct as int * cpuct as int * visits as int, term)
    }

    /// A pass through node `index`, which was visited before and is not
    /// decided, followed edge `action`: the edge that selection picks with the
    /// exploration term `term`, which is that of the node's visits under some
    /// coefficient. The node has the state that selection gave it. The child
    /// of the edge counts one visit more and has booked the reward under the
    /// opposite sign; where the edge had no child, the child is new, stands
    /// for the position after the edge's move, and has this one visit.
    pub open spec fn followed(
        before: Seq<NodeView>,
        after: Seq<NodeView>,
        index: int,
        pos: G,
        term: int,
        action: int,
        reward: int,
    ) -> bool {
        let ready = Self::opened(before, index, pos);
        let child = Tree::child(after, index, action);
        let next = pos.spec_make_move(ready[index].actions[action].mov());
        &&& exists|cpuct: u32| #[trigger] Self::weighs(cpuct, before[index].visits, term)
        &&& Tree::selects(ready, index, term, action)
        &&& after[index].state == Tree::verdict(ready, index)
        &&& after[index].actions.len() == ready[index].actions.len()
        &&& forall|e: int|
            0 <= e < ready[index].actions.len() && e != action ==> #[trigger] after[index].actions[e]
                == ready[index].actions[e]
        &&& after[index].actions[action].mov() == ready[index].actions[action].mov()
        &&& after[index].actions[action].policy() == ready[index].actions[action].policy()
        &&& index < child < after.len()
        &&& if Tree::child(ready, index, action) == -1 {
            &&& child == before.len()
            &&& after[child].visits == 1
            &&& after[child].value == -reward
            &&& after[child].parent == index
            &&& after[child].hash == next.spec_hash()
            &&& after[child].actions.len() == 0
            &&& after[child].state == next.spec_game_state()
        } else {
            &&& child == Tree::child(ready, index, action)
            &&& after[child].visits == before[child].visits + 1
            &&& after[child].value == before[child].value - reward
        }
    }

    /// What a pass may make of a node that was in the arena before it. The
    /// parent and the hash stay, visits are never taken back, and a state
    /// once decided stays. Edges, once there, keep their number, their moves
    /// and their priors, and an edge that has a child keeps it.
    pub open spec fn grown(before: NodeView, after: NodeView) -> bool {
        &&& after.parent == before.parent
        &&& after.hash == before.hash
        &&& after.visits >= before.visits
        &&& before.is_terminal() ==> after.state == before.state
        &&& before.actions.len() > 0 ==> {
            &&& after.actions.len() == before.actions.len()
            &&& forall|e: int|
                0 <= e < before.actions.len() ==> {
                    &&& (#[trigger] after.actions[e]).mov() == before.actions[e].mov()
                    &&& after.actions[e].policy() == before.actions[e].policy()
                    &&& before.actions[e].ptr() != -1 ==> after.actions[e].ptr()
                        == before.actions[e].ptr()
                }
        }
    }

    /// A pass turns back at node `j`: the node is new or was unvisited, or
    /// the game is decided there.
    pub open spec fn halts(before: Seq<NodeView>, j: int) -> bool {
        j >= before.len() || before[j].visits == 0 || before[j].is_terminal()
    }

    /// A pass has booked `reward` at node `j`: the node counts one visit more
    /// and its value has changed by `reward`. A node that the pass has made
    /// started from nothing.
    pub open spec fn booked(
        before: Seq<NodeView>,
        after: Seq<NodeView>,
        j: int,
        reward: int,
    ) -> bool {
        if j < before.len() {
            after[j].visits == before[j].visits + 1 && after[j].value == before[j].value + reward
        } else {
            after[j].visits == 1 && after[j].value == reward
        }
    }

    /// Node `to` is the child of an edge of node `from`.
    pub open spec fn stepped(nodes: Seq<NodeView>, from: int, to: int) -> bool {
        exists|e: int|
            0 <= e < nodes[from].actions.len() && #[trigger] Tree::child(nodes, from, e) == to
    }

    /// The reward of a pass as it is booked `depth` plies below the node that
    /// the pass entered: the sign changes with every ply.
    pub open spec fn signed(reward: int, depth: int) -> int {
        if depth % 2 == 0 {
            reward
        } else {
            -reward
        }
    }

    /// What holds of node number `k` on the path of a pass that brought
    /// `reward`: it is a node of the arena and, unless it is the first, a
    /// child of the node before it; the pass turned back there if and only if
    /// it is the last; and it has booked the reward under the sign of its
    /// depth.
    pub open spec fn passed_at(
        before: Seq<NodeView>,
        after: Seq<NodeView>,
        reward: int,
        path: Seq<int>,
        k: int,
    ) -> bool {
        &&& 0 <= path[k] < after.len()
        &&& k > 0 ==> Self::stepped(after, path[k - 1], path[k])
        &&& Self::halts(before, path[k]) <==> k == path.len() - 1
        &&& Self::booked(before, after, path[k], Self::signed(reward, k))
    }

    /// `path` is the way of a pass that entered node `index` and brought it
    /// `reward`. The path starts at `index`, goes from each node to one of
    /// its children, and ends at the first node at which a pass turns back. A
    /// node made by the pass is the last on the path. Each node on the path
    /// has booked the reward, under the sign of its depth. Every other node
    /// of the arena is as it was, and no node has lost anything, in the sense
    /// of [`Self::grown`].
    pub open spec fn traced(
        before: Seq<NodeView>,
        after: Seq<NodeView>,
        index: int,
        reward: int,
        path: Seq<int>,
    ) -> bool {
        &&& path.len() > 0
        &&& path[0] == index
        &&& forall|k: int|
            0 <= k < path.len() ==> #[trigger] Self::passed_at(before, after, reward, path, k)
        &&& forall|k: int, l: int|
            0 <= k < l < path.len() ==> #[trigger] path[k] < #[trigger] path[l]
        &&& after.len() > before.len() ==> path.last() == before.len()
        &&& forall|j: int| 0 <= j < before.len() ==> #[trigger] Self::left(before, after, path, j)
    }

    /// What a pass with the path `path` leaves of node `j`, which was in the
    /// arena before it: the node has lost nothing, and is as it was unless it
    /// is on the path.
    pub open spec fn left(
        before: Seq<NodeView>,
        after: Seq<NodeView>,
        path: Seq<int>,
        j: int,
    ) -> bool {
        &&& Self::grown(before[j], after[j])
        &&& !path.contains(j) ==> after[j] == before[j]
    }

    /// A pass through node `index`, which was visited before and is not
    /// decided, went on into a child: it followed an edge in the sense of
    /// [`Self::followed`], and the child of that edge is the next node on its
    /// path.
    pub open spec fn descended(
        before: Seq<NodeView>,
        after: Seq<NodeView>,
        index: int,
        pos: G,
        reward: int,
    ) -> bool {
        exists|term: int, action: int, path: Seq<int>|
            Self::followed(before, after, index, pos, term, action, reward) && Self::traced(
                before,
                after,
                index,
                reward,
                path,
            ) && path.len() > 1 && path[1] == Tree::child(after, index, action)
    }

    /// What one pass through node `index`, which stands for `pos`, makes of
    /// the arena. At most one node is added. A node that was unvisited or
    /// decided books the reward and nothing else changes; any other node
    /// sends the pass on into a child. Either way the pass has a path along
    /// which it is booked, see [`Self::traced`], and exploration terms that
    /// fix what it does together with its reward, see [`Self::replayed`].
    pub open spec fn walked(
        before: Seq<NodeView>,
        after: Seq<NodeView>,
        index: int,
        pos: G,
        reward: int,
    ) -> bool {
        &&& before.len() <= after.len() <= before.len() + 1
        &&& (before[index].visits == 0 || before[index].is_terminal()) ==> after == before.update(
            index,
            Self::bumped(before[index], reward),
        )
        &&& before[index].visits > 0 && !before[index].is_terminal() ==> Self::descended(
            before,
            after,
            index,
            pos,
            reward,
        )
        &&& exists|path: Seq<int>| Self::traced(before, after, index, reward, path)
        &&& exists|terms: Seq<int>| Self::replayed(before, after, index, pos, reward, terms)
    }

    /// The arena in which a pass that follows edge `action` of node `index`,
    /// which stands for `pos`, enters the child. The node has been given its
    /// edges if it had none, and the state that selection concludes. Where
    /// the edge had no child, the child has been made for the position after
    /// the move, as the last node of the arena, and the edge leads to it.
    pub open spec fn lowered(before: Seq<NodeView>, index: int, pos: G, action: int) -> Seq<
        NodeView,
    > {
        let ready = Self::opened(before, index, pos);
        let judged = ready.update(
            index,
            NodeView { state: Tree::verdict(ready, index), ..ready[index] },
        );
        let edge = judged[index].actions[action];
        if edge.ptr() == -1 {
            let next = pos.spec_make_move(edge.mov());
            judged.push(Tree::fresh(next.spec_game_state(), next.spec_hash(), index as i32)).update(
                index,
                NodeView {
                    actions: judged[index].actions.update(
                        action,
                        Edge::spec_new(judged.len() as i32, edge.mov(), edge.policy()),
                    ),
                    ..judged[index]
                },
            )
        } else {
            judged
        }
    }

    /// The arena `after` is what a pass through node `index`, which stands
    /// for `pos`, makes of the arena `before` when it brings `reward` and
    /// selects with the exploration terms `terms`, one for each node that it
    /// goes on from, in the order of its way.
    ///
    /// Without a term the pass turns back at the node, which was unvisited
    /// or decided, and books the reward there. With a term, which is that of
    /// the node's visits under some coefficient, the node picks its edge by
    /// the first of them, the pass enters the child in the arena of
    /// [`Self::lowered`] and goes on from there with the other terms, and
    /// what it brings the child is booked at the node under the opposite
    /// sign.
    pub open spec fn replayed(
        before: Seq<NodeView>,
        after: Seq<NodeView>,
        index: int,
        pos: G,
        reward: int,
        terms: Seq<int>,
    ) -> bool
        decreases terms.len(),
    {
        if terms.len() == 0 {
            &&& 0 <= index < before.len()
            &&& before[index].visits == 0 || before[index].is_terminal()
            &&& after == before.update(index, Self::bumped(before[index], reward))
        } else {
            &&& 0 <= index < before.len()
            &&& before[index].visits > 0
            &&& !before[index].is_terminal()
            &&& exists|cpuct: u32| #[trigger] Self::weighs(cpuct, before[index].visits, terms[0])
            &&& exists|action: int| #[trigger]
                Tree::selects(Self::opened(before, index, pos), index, terms[0], action) && {
                    let down = Self::lowered(before, index, pos, action);
                    &&& after.len() == down.len() || after.len() == down.len() + 1
                    &&& after[index] == Self::bumped(down[index], reward)
                    &&& Self::replayed(
                        down,
                        after.update(index, down[index]),
                        Tree::child(down, index, action),
                        pos.spec_make_move(down[index].actions[action].mov()),
                        -reward,
                        terms.skip(1),
                    )
                }
        }
    }

    /// The table holds the statistics of node `index` in the slot of the
    /// node's hash.
    pub open spec fn tabled(tree: Tree, index: int) -> bool {
        tree.spec_table()[HashTable::spec_slot(
            tree@[index].hash,
            tree.spec_table().len() as usize,
        )] == (HashEntry {
            hash: tree@[index].hash,
            visits: tree@[index].visits,
            wins: tree@[index].value,
        })
    }

    /// The positions `after` are those of `before`, with at most new ones at
    /// the end.
    pub open spec fn extends(before: Seq<G>, after: Seq<G>) -> bool {
        &&& before.len() <= after.len()
        &&& forall|j: int| 0 <= j < before.len() ==> after[j] == before[j]
    }

    /// Where a pass stands once node `i` is readied for the descent: nothing
    /// but node `i` has changed since `before`, and of node `i` only its
    /// edges, which still count the same visits, and its state, which can
    /// only have been decided.
    spec fn prepared(
        before: Seq<NodeView>,
        now: Seq<NodeView>,
        root: int,
        ps: Seq<G>,
        i: int,
        pos: G,
    ) -> bool {
        &&& Self::ready(now, root, ps, i, pos)
        &&& now.len() == before.len()
        &&& now.len() < i32::MAX
        &&& forall|j: int| 0 <= j < now.len() && j != i ==> #[trigger] now[j] == before[j]
        &&& now[i].parent == before[i].parent
        &&& now[i].hash == before[i].hash
        &&& now[i].visits == before[i].visits
        &&& now[i].value == before[i].value
        &&& now[i].visits > 0
        &&& Tree::children_visits(now, i) == Tree::children_visits(before, i)
        &&& Tree::children_values(now, i) == Tree::children_values(before, i)
        &&& now[i].state == GameState::Ongoing ==> before[i].state == GameState::Ongoing
    }

    /// Where a pass stands when it enters child `c` through edge `a` of node
    /// `i`: as in [`Self::prepared`], but that the child may be new, and then
    /// is the last node of the arena and unvisited.
    spec fn entered(
        before: Seq<NodeView>,
        now: Seq<NodeView>,
        i: int,
        a: int,
        c: int,
    ) -> bool {
        &&& Tree::shaped(now)
        &&& before.len() <= now.len() <= before.len() + 1
        &&& now.len() > before.len() ==> c == before.len() && now[c].visits == 0
        &&& forall|j: int| 0 <= j < before.len() && j != i ==> #[trigger] now[j] == before[j]
        &&& now[i].parent == before[i].parent
        &&& now[i].hash == before[i].hash
        &&& now[i].visits == before[i].visits
        &&& now[i].value == before[i].value
        &&& now[i].visits > 0
        &&& !before[i].is_terminal()
        &&& Tree::children_visits(now, i) == Tree::children_visits(before, i)
        &&& Tree::children_values(now, i) == Tree::children_values(before, i)
        &&& now[i].state == GameState::Ongoing ==> before[i].state == GameState::Ongoing
        &&& 0 <= a < now[i].actions.len()
        &&& Tree::child(now, i, a) == c
        &&& 0 <= i < c < now.len()
        &&& now[c].parent == i
    }

    /// Statistics and states play no part in what positions the nodes stand
    /// for, as long as no state goes back to ongoing.
    proof fn lemma_placed_stats(before: Seq<NodeView>, after: Seq<NodeView>, ps: Seq<G>)
        requires
            Tree::placed(before, ps),
            after.len() == before.len(),
            forall|j: int|
                0 <= j < before.len() ==> {
                    &&& (#[trigger] after[j]).actions == before[j].actions
                    &&& after[j].state == GameState::Ongoing ==> before[j].state
                        == GameState::Ongoing
                },
        ensures
            Tree::placed(after, ps),
    {
        assert forall|j: int| 0 <= j < after.len() implies #[trigger] Tree::placed_at(
            after,
            ps,
            j,
        ) by {
            assert(Tree::placed_at(before, ps, j));
            assert(after[j].actions == before[j].actions);
            assert forall|e: int|
                0 <= e < after[j].actions.len() && #[trigger] Tree::child(after, j, e)
                    != -1 implies ps[Tree::child(after, j, e)] == ps[j].spec_make_move(
                after[j].actions[e].mov(),
            ) by {
                assert(Tree::child(before, j, e) == Tree::child(after, j, e));
            }
        }
    }

    /// Statistics play no part in what the states are founded on.
    proof fn lemma_proven_stats(before: Seq<NodeView>, after: Seq<NodeView>, ps: Seq<G>)
        requires
            Tree::shaped(before),
            Tree::proven(before, ps),
            after.len() == before.len(),
            forall|j: int|
                0 <= j < before.len() ==> {
                    &&& (#[trigger] after[j]).actions == before[j].actions
                    &&& after[j].state == before[j].state
                },
        ensures
            Tree::proven(after, ps),
    {
        assert forall|j: int| 0 <= j < after.len() implies #[trigger] Tree::proven_at(
            after,
            ps,
            j,
        ) by {
            assert(Tree::proven_at(before, ps, j));
            assert forall|e: int|
                0 <= e < before[j].actions.len() && #[trigger] Tree::child(before, j, e)
                    != -1 implies after[Tree::child(before, j, e)].state == before[Tree::child(
                before,
                j,
                e,
            )].state by {
                assert(Tree::linked(before, j, e));
            }
            Self::lemma_proven_same(before, after, ps, ps, j);
        }
    }

    /// What the state of a node is founded on: the node's state and edges,
    /// and the states of its children.
    proof fn lemma_proven_same(
        before: Seq<NodeView>,
        after: Seq<NodeView>,
        ps: Seq<G>,
        qs: Seq<G>,
        j: int,
    )
        requires
            Tree::proven_at(before, ps, j),
            qs[j] == ps[j],
            after[j].actions == before[j].actions,
            after[j].state == before[j].state,
            forall|e: int|
                0 <= e < before[j].actions.len() && #[trigger] Tree::child(before, j, e) != -1
                    ==> after[Tree::child(before, j, e)].state == before[Tree::child(
                    before,
                    j,
                    e,
                )].state,
        ensures
            Tree::proven_at(after, qs, j),
    {
        if before[j].state != ps[j].spec_game_state() {
            if before[j].state == GameState::Win {
                let e = choose|e: int|
                    0 <= e < before[j].actions.len() && #[trigger] Tree::child(before, j, e) != -1
                        && before[Tree::child(before, j, e)].state == GameState::Loss;
                assert(Tree::child(after, j, e) == Tree::child(before, j, e));
            } else {
                assert forall|e: int| 0 <= e < after[j].actions.len() implies #[trigger] Tree::child(
                    after,
                    j,
                    e,
                ) != -1 && after[Tree::child(after, j, e)].state == GameState::Win by {
                    assert(Tree::child(before, j, e) == Tree::child(after, j, e));
                }
            }
        }
    }

    proof fn lemma_started(nodes: Seq<NodeView>, root: int, ps: Seq<G>, i: int, pos: G)
        requires
            Self::ready(nodes, root, ps, i, pos),
            nodes[i].visits > 0,
            !nodes[i].is_terminal(),
        ensures
            Self::prepared(nodes, nodes, root, ps, i, pos),
    {
    }

    proof fn lemma_expanded(
        before: Seq<NodeView>,
        mid: Seq<NodeView>,
        now: Seq<NodeView>,
        root: int,
        ps: Seq<G>,
        i: int,
        pos: G,
    )
        requires
            Self::ready(mid, root, ps, i, pos),
            mid == before,
            mid[i].visits > 0,
            !mid[i].is_terminal(),
            mid[i].actions.len() == 0,
            mid.len() < i32::MAX,
            now == mid.update(i, NodeView { actions: now[i].actions, ..mid[i] }),
            now[i].actions.len() == pos.spec_legal_moves().len(),
            forall|k: int|
                0 <= k < pos.spec_legal_moves().len() ==> {
                    &&& (#[trigger] now[i].actions[k]).ptr() == -1
                    &&& now[i].actions[k].mov() == pos.spec_legal_moves()[k]
                },
        ensures
            Self::prepared(before, now, root, ps, i, pos),
    {
        assert forall|e: int| 0 <= e < now[i].actions.len() implies #[trigger] Tree::child(
            now,
            i,
            e,
        ) == -1 by {
            assert(now[i].actions[e].ptr() == -1);
        }
        Tree::lemma_sum_none(now, i, now[i].actions.len() as int, false);
        Tree::lemma_sum_none(now, i, now[i].actions.len() as int, true);
        assert(Tree::shaped(now)) by {
            assert forall|j: int, e: int|
                0 <= j < now.len() && 0 <= e < now[j].actions.len() implies #[trigger] Tree::linked(
                now,
                j,
                e,
            ) by {
                if j != i {
                    assert(Tree::linked(mid, j, e));
                } else {
                    assert(Tree::child(now, i, e) == -1);
                }
            }
            assert forall|j: int, e: int, f: int|
                0 <= j < now.len() && 0 <= e < f < now[j].actions.len() && Tree::child(now, j, e)
                    != -1 implies #[trigger] Tree::child(now, j, e) != #[trigger] Tree::child(
                now,
                j,
                f,
            ) by {
                if j != i {
                    assert(Tree::child(mid, j, e) != Tree::child(mid, j, f));
                } else {
                    assert(Tree::child(now, i, e) == -1);
                }
            }
            assert forall|j: int| 0 <= j < now.len() implies (#[trigger] now[j]).wf() by {
                assert(mid[j].wf());
            }
        }
        assert(Tree::placed(now, ps)) by {
            assert forall|j: int| 0 <= j < now.len() implies #[trigger] Tree::placed_at(
                now,
                ps,
                j,
            ) by {
                assert(Tree::placed_at(mid, ps, j));
                if j == i {
                    assert(Tree::moves(now[i].actions) =~= pos.spec_legal_moves());
                    assert forall|e: int|
                        0 <= e < now[i].actions.len() && #[trigger] Tree::child(now, i, e)
                            != -1 implies ps[Tree::child(now, i, e)] == ps[i].spec_make_move(
                        now[i].actions[e].mov(),
                    ) by {
                        assert(Tree::child(now, i, e) == -1);
                    }
                } else {
                    assert forall|e: int|
                        0 <= e < now[j].actions.len() && #[trigger] Tree::child(now, j, e)
                            != -1 implies ps[Tree::child(now, j, e)] == ps[j].spec_make_move(
                        now[j].actions[e].mov(),
                    ) by {
                        assert(Tree::child(mid, j, e) == Tree::child(now, j, e));
                    }
                }
            }
        }
        assert forall|j: int| root <= j < now.len() implies #[trigger] Tree::sound_at(now, j, i) by {
            assert(Tree::sound_at(mid, j, i));
            assert(Tree::balanced_at(mid, j));
            assert(Tree::children_visited(mid, j, i));
            if j != i {
                assert forall|e: int|
                    0 <= e < mid[j].actions.len() && #[trigger] Tree::child(mid, j, e)
                        != -1 implies now[Tree::child(mid, j, e)].visits == mid[Tree::child(
                    mid,
                    j,
                    e,
                )].visits && now[Tree::child(mid, j, e)].value == mid[Tree::child(
                    mid,
                    j,
                    e,
                )].value by {
                    assert(Tree::linked(mid, j, e));
                }
                Tree::lemma_balanced_same(mid, now, j);
                assert forall|e: int|
                    0 <= e < now[j].actions.len() && Tree::child(now, j, e) != -1
                        && #[trigger] Tree::child(now, j, e) != i implies now[Tree::child(
                    now,
                    j,
                    e,
                )].visits >= 1 by {
                    assert(Tree::child(mid, j, e) == Tree::child(now, j, e));
                    assert(Tree::linked(mid, j, e));
                }
            } else {
                assert forall|e: int|
                    0 <= e < now[j].actions.len() && Tree::child(now, j, e) != -1
                        && #[trigger] Tree::child(now, j, e) != i implies now[Tree::child(
                    now,
                    j,
                    e,
                )].visits >= 1 by {
                    assert(Tree::child(now, i, e) == -1);
                }
            }
        }
        assert(Tree::children_visits(mid, i) == 0);
        assert forall|j: int| 0 <= j < now.len() implies #[trigger] Tree::proven_at(now, ps, j) by {
            assert(Tree::proven_at(mid, ps, j));
            assert(Tree::placed_at(mid, ps, j));
            if j != i {
                assert forall|e: int|
                    0 <= e < mid[j].actions.len() && #[trigger] Tree::child(mid, j, e)
                        != -1 implies now[Tree::child(mid, j, e)].state == mid[Tree::child(
                    mid,
                    j,
                    e,
                )].state by {
                    assert(Tree::linked(mid, j, e));
                }
                Self::lemma_proven_same(mid, now, ps, ps, j);
            }
        }
    }

    proof fn lemma_judged(
        before: Seq<NodeView>,
        mid: Seq<NodeView>,
        now: Seq<NodeView>,
        root: int,
        ps: Seq<G>,
        i: int,
        pos: G,
    )
        requires
            Self::prepared(before, mid, root, ps, i, pos),
            Tree::shaped(now),
            now == mid.update(i, NodeView { state: now[i].state, ..mid[i] }),
            mid[i].state == GameState::Ongoing,
            mid[i].actions.len() > 0,
            now[i].state == Tree::verdict(mid, i),
        ensures
            Self::prepared(before, now, root, ps, i, pos),
    {
        Self::lemma_placed_stats(mid, now, ps);
        assert(Tree::placed_at(mid, ps, i));
        Tree::lemma_first_forced_found(mid, i, 0);
        assert forall|j: int| 0 <= j < now.len() implies #[trigger] Tree::proven_at(now, ps, j) by {
            assert(Tree::proven_at(mid, ps, j));
            if j == i {
                let first = Tree::first_forced(mid, i, 0);
                if now[i].state == GameState::Win {
                    assert(Tree::child(now, i, first) == Tree::child(mid, i, first));
                    assert(Tree::linked(mid, i, first));
                } else if now[i].state == GameState::Loss {
                    assert forall|e: int| 0 <= e < now[i].actions.len() implies #[trigger] Tree::child(
                        now,
                        i,
                        e,
                    ) != -1 && now[Tree::child(now, i, e)].state == GameState::Win by {
                        assert(!Tree::forced(mid, i, e));
                        assert(Tree::child(now, i, e) == Tree::child(mid, i, e));
                        assert(Tree::linked(mid, i, e));
                    }
                }
            } else if mid[j].state != ps[j].spec_game_state() {
                if mid[j].state == GameState::Win {
                    let e = choose|e: int|
                        0 <= e < mid[j].actions.len() && #[trigger] Tree::child(mid, j, e) != -1
                            && mid[Tree::child(mid, j, e)].state == GameState::Loss;
                    assert(Tree::child(now, j, e) == Tree::child(mid, j, e));
                    assert(Tree::linked(mid, j, e));
                } else {
                    assert forall|e: int| 0 <= e < now[j].actions.len() implies #[trigger] Tree::child(
                        now,
                        j,
                        e,
                    ) != -1 && now[Tree::child(now, j, e)].state == GameState::Win by {
                        assert(Tree::child(mid, j, e) == Tree::child(now, j, e));
                        assert(Tree::linked(mid, j, e));
                    }
                }
            }
        }
        assert forall|j: int| root <= j < now.len() implies #[trigger] Tree::sound_at(now, j, i) by {
            assert(Tree::sound_at(mid, j, i));
            assert(Tree::balanced_at(mid, j));
            assert(Tree::children_visited(mid, j, i));
            assert forall|e: int, values: bool|
                0 <= e < mid[j].actions.len() implies #[trigger] Tree::edge_sum(now, j, e, values)
                == Tree::edge_sum(mid, j, e, values) by {
                assert(Tree::child(now, j, e) == Tree::child(mid, j, e));
                assert(Tree::linked(mid, j, e));
            }
            Tree::lemma_sum_same(mid, now, j, mid[j].actions.len() as int, false);
            Tree::lemma_sum_same(mid, now, j, mid[j].actions.len() as int, true);
            assert forall|e: int|
                0 <= e < now[j].actions.len() && Tree::child(now, j, e) != -1
                    && #[trigger] Tree::child(now, j, e) != i implies now[Tree::child(
                now,
                j,
                e,
            )].visits >= 1 by {
                assert(Tree::child(mid, j, e) == Tree::child(now, j, e));
                assert(Tree::linked(mid, j, e));
            }
        }
        assert forall|e: int, values: bool|
            0 <= e < mid[i].actions.len() implies #[trigger] Tree::edge_sum(now, i, e, values)
            == Tree::edge_sum(mid, i, e, values) by {
            assert(Tree::child(now, i, e) == Tree::child(mid, i, e));
            assert(Tree::linked(mid, i, e));
        }
        Tree::lemma_sum_same(mid, now, i, mid[i].actions.len() as int, false);
        Tree::lemma_sum_same(mid, now, i, mid[i].actions.len() as int, true);
    }

    proof fn lemma_entered(
        before: Seq<NodeView>,
        now: Seq<NodeView>,
        root: int,
        ps: Seq<G>,
        i: int,
        pos: G,
        a: int,
    )
        requires
            Self::prepared(before, now, root, ps, i, pos),
            !before[i].is_terminal(),
            0 <= a < now[i].actions.len(),
            Tree::child(now, i, a) != -1,
        ensures
            Self::entered(before, now, i, a, Tree::child(now, i, a)),
            Self::ready(
                now,
                root,
                ps,
                Tree::child(now, i, a),
                pos.spec_make_move(now[i].actions[a].mov()),
            ),
            now[Tree::child(now, i, a)].visits < now[i].visits,
    {
        let c = Tree::child(now, i, a);
        assert(Tree::linked(now, i, a));
        assert(Tree::sound_at(now, i, i));
        assert(Tree::balanced_at(now, i));
        assert(Tree::placed_at(now, ps, i));
        Tree::lemma_edge_visits_bound(now, i, a, now[i].actions.len() as int);
        assert forall|j: int| root <= j < now.len() implies #[trigger] Tree::sound_at(now, j, c) by {
            assert(Tree::sound_at(now, j, i));
            assert(Tree::balanced_at(now, j));
            assert(Tree::children_visited(now, j, i));
            assert forall|e: int|
                0 <= e < now[j].actions.len() && Tree::child(now, j, e) != -1
                    && #[trigger] Tree::child(now, j, e) != c implies now[Tree::child(
                now,
                j,
                e,
            )].visits >= 1 by {
            }
        }
    }

    proof fn lemma_linked(
        before: Seq<NodeView>,
        mid: Seq<NodeView>,
        now: Seq<NodeView>,
        root: int,
        ps: Seq<G>,
        i: int,
        pos: G,
        a: int,
    )
        requires
            Self::prepared(before, mid, root, ps, i, pos),
            !before[i].is_terminal(),
            mid[i].state == GameState::Ongoing,
            0 <= a < mid[i].actions.len(),
            Tree::child(mid, i, a) == -1,
            now.len() == mid.len() + 1,
            now[mid.len() as int] == Tree::fresh(
                pos.spec_make_move(mid[i].actions[a].mov()).spec_game_state(),
                now[mid.len() as int].hash,
                i as i32,
            ),
            forall|j: int| 0 <= j < mid.len() && j != i ==> #[trigger] now[j] == mid[j],
            now[i] == (NodeView { actions: now[i].actions, ..mid[i] }),
            now[i].actions.len() == mid[i].actions.len(),
            forall|e: int|
                0 <= e < mid[i].actions.len() && e != a ==> #[trigger] now[i].actions[e]
                    == mid[i].actions[e],
            now[i].actions[a].ptr() == mid.len(),
            now[i].actions[a].mov() == mid[i].actions[a].mov(),
        ensures
            Self::entered(before, now, i, a, mid.len() as int),
            Self::ready(
                now,
                root,
                ps.push(pos.spec_make_move(mid[i].actions[a].mov())),
                mid.len() as int,
                pos.spec_make_move(mid[i].actions[a].mov()),
            ),
            now[mid.len() as int].visits < now[i].visits,
    {
        let c = mid.len() as int;
        let next = pos.spec_make_move(mid[i].actions[a].mov());
        let qs = ps.push(next);
        assert(Tree::child(now, i, a) == c);
        assert forall|j: int, e: int|
            0 <= j < mid.len() && 0 <= e < mid[j].actions.len() && !(j == i && e == a)
                implies #[trigger] Tree::child(now, j, e) == Tree::child(mid, j, e) by {
            if j == i {
                assert(now[i].actions[e] == mid[i].actions[e]);
            } else {
                assert(now[j] == mid[j]);
            }
        }
        assert(Tree::shaped(now)) by {
            assert forall|j: int| 0 <= j < now.len() implies (#[trigger] now[j]).wf() by {
                if j < mid.len() {
                    assert(mid[j].wf());
                    if j != i {
                        assert(now[j] == mid[j]);
                    }
                }
            }
            assert forall|j: int, e: int|
                0 <= j < now.len() && 0 <= e < now[j].actions.len() implies #[trigger] Tree::linked(
                now,
                j,
                e,
            ) by {
                if j == i && e == a {
                } else {
                    assert(j < mid.len());
                    assert(now[j].actions.len() == mid[j].actions.len());
                    assert(Tree::linked(mid, j, e));
                    assert(Tree::child(now, j, e) == Tree::child(mid, j, e));
                    let k = Tree::child(mid, j, e);
                    if k != -1 {
                        if k != i {
                            assert(now[k] == mid[k]);
                        }
                    }
                }
            }
            assert forall|j: int, e: int, f: int|
                0 <= j < now.len() && 0 <= e < f < now[j].actions.len() && Tree::child(now, j, e)
                    != -1 implies #[trigger] Tree::child(now, j, e) != #[trigger] Tree::child(
                now,
                j,
                f,
            ) by {
                assert(j < mid.len());
                assert(now[j].actions.len() == mid[j].actions.len());
                if j == i && (e == a || f == a) {
                    if e == a {
                        assert(Tree::child(now, j, f) == Tree::child(mid, j, f));
                        assert(Tree::linked(mid, j, f));
                    } else {
                        assert(Tree::child(now, j, e) == Tree::child(mid, j, e));
                        assert(Tree::linked(mid, j, e));
                    }
                } else {
                    assert(Tree::child(now, j, e) == Tree::child(mid, j, e));
                    assert(Tree::child(now, j, f) == Tree::child(mid, j, f));
                    assert(Tree::child(mid, j, e) != Tree::child(mid, j, f));
                }
            }
        }
        assert(Tree::placed(now, qs)) by {
            assert forall|j: int| 0 <= j < now.len() implies #[trigger] Tree::placed_at(
                now,
                qs,
                j,
            ) by {
                if j < mid.len() {
                    assert(Tree::placed_at(mid, ps, j));
                    assert(now[j].actions.len() == mid[j].actions.len());
                    assert(now[j].state == mid[j].state);
                    if now[j].actions.len() > 0 {
                        assert(Tree::moves(now[j].actions) =~= Tree::moves(mid[j].actions)) by {
                            assert forall|k: int| 0 <= k < now[j].actions.len() implies (
                            #[trigger] now[j].actions[k]).mov() == mid[j].actions[k].mov() by {
                                if j == i && k != a {
                                    assert(now[i].actions[k] == mid[i].actions[k]);
                                }
                            }
                        }
                    }
                    assert forall|e: int|
                        0 <= e < now[j].actions.len() && #[trigger] Tree::child(now, j, e)
                            != -1 implies qs[Tree::child(now, j, e)] == qs[j].spec_make_move(
                        now[j].actions[e].mov(),
                    ) by {
                        if j == i && e == a {
                        } else {
                            assert(Tree::child(now, j, e) == Tree::child(mid, j, e));
                            assert(Tree::linked(mid, j, e));
                            if j == i {
                                assert(now[i].actions[e] == mid[i].actions[e]);
                            }
                        }
                    }
                }
            }
        }
        assert(Tree::sound_at(mid, i, i));
        assert(Tree::balanced_at(mid, i));
        assert forall|e: int, values: bool|
            0 <= e < mid[i].actions.len() implies #[trigger] Tree::edge_sum(now, i, e, values)
            == Tree::edge_sum(mid, i, e, values) by {
            if e != a {
                assert(Tree::child(now, i, e) == Tree::child(mid, i, e));
                assert(Tree::linked(mid, i, e));
                let k = Tree::child(mid, i, e);
                if k != -1 {
                    assert(now[k] == mid[k]);
                }
            }
        }
        Tree::lemma_sum_same(mid, now, i, mid[i].actions.len() as int, false);
        Tree::lemma_sum_same(mid, now, i, mid[i].actions.len() as int, true);
        assert forall|j: int| root <= j < now.len() implies #[trigger] Tree::sound_at(now, j, c) by {
            if j < mid.len() {
                assert(Tree::sound_at(mid, j, i));
                assert(Tree::balanced_at(mid, j));
                assert(Tree::children_visited(mid, j, i));
                assert forall|e: int, values: bool|
                    0 <= e < mid[j].actions.len() implies #[trigger] Tree::edge_sum(now, j, e, values)
                    == Tree::edge_sum(mid, j, e, values) by {
                    if j == i && e == a {
                    } else {
                        assert(Tree::child(now, j, e) == Tree::child(mid, j, e));
                        assert(Tree::linked(mid, j, e));
                        let k = Tree::child(mid, j, e);
                        if k != -1 && k != i {
                            assert(now[k] == mid[k]);
                        }
                    }
                }
                Tree::lemma_sum_same(mid, now, j, mid[j].actions.len() as int, false);
                Tree::lemma_sum_same(mid, now, j, mid[j].actions.len() as int, true);
                assert forall|e: int|
                    0 <= e < now[j].actions.len() && Tree::child(now, j, e) != -1
                        && #[trigger] Tree::child(now, j, e) != c implies now[Tree::child(
                    now,
                    j,
                    e,
                )].visits >= 1 by {
                    assert(Tree::child(now, j, e) == Tree::child(mid, j, e));
                    assert(Tree::linked(mid, j, e));
                    let k = Tree::child(mid, j, e);
                    if k != i {
                        assert(now[k] == mid[k]);
                    }
                }
            } else {
                Tree::lemma_sum_none(now, j, 0, false);
                Tree::lemma_sum_none(now, j, 0, true);
            }
        }
        assert forall|j: int| 0 <= j < before.len() && j != i implies #[trigger] now[j]
            == before[j] by {
            assert(now[j] == mid[j]);
            assert(mid[j] == before[j]);
        }
        assert forall|j: int| 0 <= j < now.len() implies #[trigger] Tree::proven_at(now, qs, j) by {
            if j < mid.len() {
                assert(Tree::proven_at(mid, ps, j));
                assert(Tree::placed_at(mid, ps, j));
                if j != i {
                    assert forall|e: int|
                        0 <= e < mid[j].actions.len() && #[trigger] Tree::child(mid, j, e)
                            != -1 implies now[Tree::child(mid, j, e)].state == mid[Tree::child(
                        mid,
                        j,
                        e,
                    )].state by {
                        assert(Tree::linked(mid, j, e));
                    }
                    Self::lemma_proven_same(mid, now, ps, qs, j);
                }
            }
        }
        assert(Self::room(now, c));
        assert(qs[c] == next);
        assert(now[c].visits == 0);
        assert(Tree::proven(now, qs));
        assert(Self::ready(now, root, qs, c, next));
    }

    proof fn lemma_leaf(
        before: Seq<NodeView>,
        after: Seq<NodeView>,
        root: int,
        ps: Seq<G>,
        i: int,
        pos: G,
        reward: int,
    )
        requires
            Self::ready(before, root, ps, i, pos),
            before[i].visits == 0 || before[i].is_terminal(),
            -UNIT <= reward <= UNIT,
            before[i].is_terminal() ==> reward == -before[i].state.spec_utility(),
            Tree::shaped(after),
            after == before.update(i, Self::bumped(before[i], reward)),
        ensures
            Self::passed(before, after, root, i, reward),
            Tree::placed(after, ps),
            Tree::proven(after, ps),
    {
        Self::lemma_placed_stats(before, after, ps);
        Self::lemma_proven_stats(before, after, ps);
        assert forall|j: int| 0 <= j < before.len() implies #[trigger] Self::kept(
            before,
            after,
            i,
            j,
        ) by {
        }
        let whole = i == root;
        let above = before[i].parent as int;
        assert forall|j: int| root <= j < after.len() implies #[trigger] Self::settled_at(
            after,
            j,
            whole,
            above,
        ) by {
            assert(Tree::sound_at(before, j, i));
            assert(Tree::balanced_at(before, j));
            assert(Tree::children_visited(before, j, i));
            assert forall|e: int|
                0 <= e < after[j].actions.len() && Tree::child(after, j, e) != -1
                    && #[trigger] Tree::child(after, j, e) != -1 implies after[Tree::child(
                after,
                j,
                e,
            )].visits >= 1 by {
                assert(Tree::child(before, j, e) == Tree::child(after, j, e));
                assert(Tree::linked(before, j, e));
            }
            if i == root || j != before[i].parent {
                if j == i {
                    assert forall|e: int, values: bool|
                        0 <= e < before[j].actions.len() implies #[trigger] Tree::edge_sum(after, j, e, values)
                        == Tree::edge_sum(before, j, e, values) by {
                        assert(Tree::child(before, j, e) == Tree::child(after, j, e));
                        assert(Tree::linked(before, j, e));
                    }
                    Tree::lemma_sum_same(before, after, j, before[j].actions.len() as int, false);
                    Tree::lemma_sum_same(before, after, j, before[j].actions.len() as int, true);
                } else {
                    assert forall|e: int|
                        0 <= e < before[j].actions.len() && #[trigger] Tree::child(before, j, e)
                            != -1 implies after[Tree::child(before, j, e)].visits
                        == before[Tree::child(before, j, e)].visits && after[Tree::child(
                        before,
                        j,
                        e,
                    )].value == before[Tree::child(before, j, e)].value by {
                        assert(Tree::linked(before, j, e));
                    }
                    Tree::lemma_balanced_same(before, after, j);
                }
            }
        }
    }

    proof fn lemma_inner(
        before: Seq<NodeView>,
        down: Seq<NodeView>,
        up: Seq<NodeView>,
        after: Seq<NodeView>,
        root: int,
        i: int,
        a: int,
        c: int,
        below: int,
    )
        requires
            0 <= root <= i < before.len(),
            Tree::shaped(before),
            Tree::balanced_at(before, i),
            before[i].visits > 0,
            before[i].visits < u64::MAX,
            Self::entered(before, down, i, a, c),
            Self::passed(down, up, root, c, below),
            Tree::shaped(after),
            after == up.update(i, Self::bumped(up[i], -below)),
        ensures
            Self::passed(before, after, root, i, -below),
    {
        assert(Self::kept(down, up, c, i));
        assert(Self::kept(down, up, c, c));
        assert(up[i] == down[i]);
        assert(up[i].wf());
        assert(after[i].visits == before[i].visits + 1);
        assert(after[i].value == before[i].value - below) by {
            assert(up[i].visits * UNIT <= u64::MAX * UNIT) by (nonlinear_arith)
                requires
                    up[i].visits <= u64::MAX,
                    UNIT == 65_535,
            ;
        }
        assert(Tree::linked(down, i, a));
        // The children of `i` count one visit more, all of it along edge `a`.
        assert forall|e: int, values: bool|
            0 <= e < down[i].actions.len() && e != a implies #[trigger] Tree::edge_sum(
            after,
            i,
            e,
            values,
        ) == Tree::edge_sum(down, i, e, values) by {
            assert(Tree::child(after, i, e) == Tree::child(down, i, e));
            assert(Tree::linked(down, i, e));
            let k = Tree::child(down, i, e);
            if k != -1 {
                if e < a {
                    assert(Tree::child(down, i, e) != Tree::child(down, i, a));
                } else {
                    assert(Tree::child(down, i, a) != Tree::child(down, i, e));
                }
                assert(Self::kept(down, up, c, k));
            }
        }
        assert(Tree::edge_sum(after, i, a, false) == Tree::edge_sum(down, i, a, false) + 1
            && Tree::edge_sum(after, i, a, true) == Tree::edge_sum(down, i, a, true) + below) by {
            assert(Tree::child(after, i, a) == c);
        }
        Tree::lemma_sum_bumped(down, after, i, down[i].actions.len() as int, a, 1, false);
        Tree::lemma_sum_bumped(down, after, i, down[i].actions.len() as int, a, below, true);
        assert(Tree::children_visits(after, i) == Tree::children_visits(before, i) + 1);
        assert(Tree::children_values(after, i) == Tree::children_values(before, i) + below);
        assert forall|j: int| 0 <= j < before.len() implies #[trigger] Self::kept(
            before,
            after,
            i,
            j,
        ) by {
            if j != i {
                assert(down[j] == before[j]);
                assert(Self::kept(down, up, c, j));
                assert(after[j] == up[j]);
            }
        }
        let whole = i == root;
        let above = before[i].parent as int;
        assert forall|j: int| root <= j < after.len() implies #[trigger] Self::settled_at(
            after,
            j,
            whole,
            above,
        ) by {
            assert(Self::settled_at(up, j, false, i));
            assert(Tree::children_visited(up, j, -1));
            assert forall|e: int|
                0 <= e < after[j].actions.len() && Tree::child(after, j, e) != -1
                    && #[trigger] Tree::child(after, j, e) != -1 implies after[Tree::child(
                after,
                j,
                e,
            )].visits >= 1 by {
                assert(Tree::child(up, j, e) == Tree::child(after, j, e));
                assert(Tree::linked(up, j, e));
            }
            if i == root || j != before[i].parent {
                if j != i {
                    assert(down[c].parent == i);
                    assert(c != root);
                    assert(Tree::balanced_at(up, j));
                    assert forall|e: int|
                        0 <= e < up[j].actions.len() && #[trigger] Tree::child(up, j, e)
                            != -1 implies after[Tree::child(up, j, e)].visits == up[Tree::child(
                        up,
                        j,
                        e,
                    )].visits && after[Tree::child(up, j, e)].value == up[Tree::child(
                        up,
                        j,
                        e,
                    )].value by {
                        assert(Tree::linked(up, j, e));
                        if Tree::child(up, j, e) == i {
                            assert(up[i].parent == j);
                            assert(j < i);
                        }
                    }
                    Tree::lemma_balanced_same(up, after, j);
                }
            }
        }
        assert(before.len() <= after.len() <= before.len() + 1);
        assert(after.len() > before.len() ==> after[before.len() as int].parent >= i);
        assert(!(before[i].visits == 0 || before[i].is_terminal()));
        assert(Self::kept_all(before, after, i));
        assert(Self::settled(after, root, i == root, before[i].parent as int));
        assert(-UNIT <= -below <= UNIT);
        assert(after[i].visits == before[i].visits + 1);
        assert(after[i].value == before[i].value + (-below));
    }

    /// The path of a pass that turns back at once is the node alone.
    proof fn lemma_traced_leaf(before: Seq<NodeView>, after: Seq<NodeView>, i: int, reward: int)
        requires
            0 <= i < before.len(),
            before[i].visits == 0 || before[i].is_terminal(),
            after == before.update(i, Self::bumped(before[i], reward)),
            after[i].visits == before[i].visits + 1,
            after[i].value == before[i].value + reward,
        ensures
            Self::traced(before, after, i, reward, seq![i]),
    {
        let path = seq![i];
        assert(path[0] == i);
        assert(path.contains(i));
        assert(Self::passed_at(before, after, reward, path, 0));
        assert forall|j: int| 0 <= j < before.len() implies #[trigger] Self::left(
            before,
            after,
            path,
            j,
        ) by {
        }
    }

    /// The node that followed an edge has lost nothing by it.
    proof fn lemma_followed_grown(
        before: Seq<NodeView>,
        after: Seq<NodeView>,
        i: int,
        pos: G,
        term: int,
        a: int,
        reward: int,
    )
        requires
            0 <= i < before.len(),
            !before[i].is_terminal(),
            Self::followed(before, after, i, pos, term, a, reward),
            after[i].parent == before[i].parent,
            after[i].hash == before[i].hash,
            after[i].visits >= before[i].visits,
        ensures
            Self::grown(before[i], after[i]),
    {
        if before[i].actions.len() > 0 {
            let ready = Self::opened(before, i, pos);
            assert(ready == before);
            assert forall|e: int| 0 <= e < before[i].actions.len() implies {
                &&& (#[trigger] after[i].actions[e]).mov() == before[i].actions[e].mov()
                &&& after[i].actions[e].policy() == before[i].actions[e].policy()
                &&& before[i].actions[e].ptr() != -1 ==> after[i].actions[e].ptr()
                    == before[i].actions[e].ptr()
            } by {
                if e != a {
                    assert(after[i].actions[e] == ready[i].actions[e]);
                }
            }
        }
    }

    /// Where a pass went on from node `i` into a child, node number `k` on
    /// the child's path is node number `k + 1` on the path from `i`.
    proof fn lemma_passed_below(
        before: Seq<NodeView>,
        down: Seq<NodeView>,
        up: Seq<NodeView>,
        after: Seq<NodeView>,
        i: int,
        a: int,
        below: int,
        path: Seq<int>,
        k: int,
    )
        requires
            0 <= i < before.len() <= down.len() <= up.len(),
            down.len() <= before.len() + 1,
            0 <= k < path.len(),
            0 <= a < down[i].actions.len(),
            Tree::child(down, i, a) == path[0],
            forall|l: int| 0 <= l < path.len() ==> i < #[trigger] path[l] < up.len(),
            forall|j: int| 0 <= j < before.len() && j != i ==> #[trigger] down[j] == before[j],
            down.len() > before.len() ==> down[before.len() as int].visits == 0
                && down[before.len() as int].value == 0,
            Self::passed_at(down, up, below, path, k),
            after.len() == up.len(),
            forall|j: int| 0 <= j < up.len() && j != i ==> #[trigger] after[j] == up[j],
            after[i].actions == down[i].actions,
        ensures
            Self::passed_at(before, after, -below, seq![i] + path, k + 1),
    {
        let whole = seq![i] + path;
        let j = path[k];
        assert(whole[k + 1] == j);
        assert(whole.len() == path.len() + 1);
        assert(after[j] == up[j]);
        if j < before.len() {
            assert(down[j] == before[j]);
        }
        assert(Self::signed(-below, k + 1) == Self::signed(below, k));
        if k == 0 {
            assert(whole[0] == i);
            assert(Tree::child(after, i, a) == j);
        } else {
            let from = path[k - 1];
            assert(whole[k] == from);
            assert(Self::stepped(up, from, j));
            let e = choose|e: int|
                0 <= e < up[from].actions.len() && #[trigger] Tree::child(up, from, e) == j;
            assert(after[from] == up[from]);
            assert(Tree::child(after, from, e) == j);
        }
        assert(Self::stepped(after, whole[k], whole[k + 1]));
        assert(Self::halts(before, j) == Self::halts(down, j));
        assert(Self::booked(before, after, j, Self::signed(below, k)));
    }

    /// The path of a pass that went on into child `c` of node `i` is the node
    /// and then the path of the pass through the child.
    proof fn lemma_traced_inner(
        before: Seq<NodeView>,
        down: Seq<NodeView>,
        up: Seq<NodeView>,
        after: Seq<NodeView>,
        i: int,
        a: int,
        c: int,
        below: int,
        path: Seq<int>,
    )
        requires
            0 <= i < before.len(),
            Self::entered(before, down, i, a, c),
            Self::traced(down, up, c, below, path),
            down.len() <= up.len(),
            up[i] == down[i],
            after.len() == up.len(),
            forall|j: int| 0 <= j < up.len() && j != i ==> #[trigger] after[j] == up[j],
            after[i].actions == down[i].actions,
            after[i].visits == before[i].visits + 1,
            after[i].value == before[i].value - below,
            Self::grown(before[i], after[i]),
        ensures
            Self::traced(before, after, i, -below, seq![i] + path),
    {
        let whole = seq![i] + path;
        assert(whole.len() == path.len() + 1);
        assert(whole[0] == i);
        assert(path[0] == c);
        assert(down[c].wf());
        // Everything on the path of the child lies behind node `i`.
        assert forall|l: int| 0 <= l < path.len() implies i < #[trigger] path[l] < up.len() by {
            assert(Self::passed_at(down, up, below, path, l));
            if l > 0 {
                assert(path[0] < path[l]);
            }
        }
        // A child that has just been made is where the pass turns back.
        assert(Self::passed_at(down, up, below, path, 0));
        if down.len() > before.len() {
            assert(Self::halts(down, c));
            assert(path.len() == 1);
        }
        assert forall|k: int| 0 <= k < whole.len() implies #[trigger] Self::passed_at(
            before,
            after,
            -below,
            whole,
            k,
        ) by {
            if k > 0 {
                assert(Self::passed_at(down, up, below, path, k - 1));
                Self::lemma_passed_below(before, down, up, after, i, a, below, path, k - 1);
            }
        }
        assert forall|k: int, l: int| 0 <= k < l < whole.len() implies #[trigger] whole[k]
            < #[trigger] whole[l] by {
            assert(whole[l] == path[l - 1]);
            if k > 0 {
                assert(whole[k] == path[k - 1]);
                assert(path[k - 1] < path[l - 1]);
            }
        }
        assert(whole.last() == path.last());
        assert forall|j: int| 0 <= j < before.len() implies #[trigger] Self::left(
            before,
            after,
            whole,
            j,
        ) by {
            if j != i {
                assert(down[j] == before[j]);
                assert(Self::left(down, up, path, j));
                assert(after[j] == up[j]);
                if path.contains(j) {
                    let k = choose|k: int| 0 <= k < path.len() && path[k] == j;
                    assert(whole[k + 1] == j);
                    assert(whole.contains(j));
                }
            } else {
                assert(whole.contains(i));
            }
        }
    }

    /// Pass number `i` of a row of passes from node `root`, which stands for
    /// `pos`, led from `states[i]` to the next state and brought `rewards[i]`.
    pub open spec fn pass_at(
        pos: G,
        root: int,
        states: Seq<Seq<NodeView>>,
        rewards: Seq<int>,
        i: int,
    ) -> bool {
        Self::walked(states[i], states[i + 1], root, pos, rewards[i])
    }

    /// `states` are the states of the arena before, between and after a row
    /// of passes from node `root`, which stands for `pos`, and `rewards` what
    /// the passes brought. The root was not decided between two passes.
    pub open spec fn chained(
        pos: G,
        root: int,
        states: Seq<Seq<NodeView>>,
        rewards: Seq<int>,
    ) -> bool {
        &&& states.len() == rewards.len() + 1
        &&& forall|i: int|
            0 <= i < rewards.len() ==> #[trigger] Self::pass_at(pos, root, states, rewards, i)
        &&& forall|i: int| 1 <= i < rewards.len() ==> !(#[trigger] states[i])[root].is_terminal()
    }

    /// The arena `after` is what a row of passes from node `root`, which
    /// stands for `pos`, has made of the arena `before`, in the sense of
    /// [`Self::chained`].
    pub open spec fn ran(before: Seq<NodeView>, after: Seq<NodeView>, root: int, pos: G) -> bool {
        exists|states: Seq<Seq<NodeView>>, rewards: Seq<int>| #[trigger]
            Self::chained(pos, root, states, rewards) && states[0] == before && states.last()
                == after && rewards.len() == Self::passes(before, after, root)
    }

    /// The pass that went on from node `i` along edge `a` is replayed by the
    /// term that picked the edge and then the terms of the pass through the
    /// child.
    proof fn lemma_replayed_inner(
        before: Seq<NodeView>,
        down: Seq<NodeView>,
        up: Seq<NodeView>,
        after: Seq<NodeView>,
        i: int,
        pos: G,
        a: int,
        term: int,
        below: int,
        terms: Seq<int>,
    )
        requires
            0 <= i < before.len(),
            before[i].visits > 0,
            !before[i].is_terminal(),
            exists|cpuct: u32| #[trigger] Self::weighs(cpuct, before[i].visits, term),
            Tree::selects(Self::opened(before, i, pos), i, term, a),
            down == Self::lowered(before, i, pos, a),
            Self::replayed(
                down,
                up,
                Tree::child(down, i, a),
                pos.spec_make_move(down[i].actions[a].mov()),
                below,
                terms,
            ),
            up[i] == down[i],
            up.len() == down.len() || up.len() == down.len() + 1,
            after == up.update(i, Self::bumped(up[i], -below)),
        ensures
            Self::replayed(before, after, i, pos, -below, seq![term] + terms),
    {
        let all = seq![term] + terms;
        assert(all[0] == term);
        assert(all.skip(1) =~= terms);
        let cpuct = choose|cpuct: u32| #[trigger] Self::weighs(cpuct, before[i].visits, term);
        assert(Self::weighs(cpuct, before[i].visits, all[0]));
        assert(after.update(i, down[i]) =~= up);
        assert(Tree::selects(Self::opened(before, i, pos), i, all[0], a));
    }

    /// What two passes in a row leave of a node, one pass leaves of it.
    pub proof fn lemma_grown_twice(first: NodeView, second: NodeView, third: NodeView)
        requires
            Self::grown(first, second),
            Self::grown(second, third),
        ensures
            Self::grown(first, third),
    {
        if first.actions.len() > 0 {
            assert forall|e: int| 0 <= e < first.actions.len() implies {
                &&& (#[trigger] third.actions[e]).mov() == first.actions[e].mov()
                &&& third.actions[e].policy() == first.actions[e].policy()
                &&& first.actions[e].ptr() != -1 ==> third.actions[e].ptr()
                    == first.actions[e].ptr()
            } by {
                assert(second.actions[e].mov() == first.actions[e].mov());
            }
        }
    }

    /// A search from `pos` with an empty arena, whose table has `capacity`
    /// slots.
    pub fn new(pos: G, capacity: usize) -> (search: Self)
        requires
            capacity > 0,
        ensures
            search.wf(),
            search.position() == pos,
            search.spec_tree()@.len() == 0,
    {
        Search { root: pos, tree: Tree::new(capacity), positions: Ghost(Seq::empty()) }
    }

    /// The arena of the search.
    pub fn tree(&self) -> (tree: &Tree)
        ensures
            *tree == self.spec_tree(),
    {
        &self.tree
    }

    /// The rank of edge `e` of node `i` when the move to play is chosen: the
    /// visits of its child, and less than any such number where it has none.
    pub open spec fn visit_key(nodes: Seq<NodeView>, i: int, e: int) -> int {
        let c = Tree::child(nodes, i, e);
        if c == -1 {
            -1
        } else {
            nodes[c].visits as int
        }
    }

    /// Edge `a` of node `i` is the one to play: none ranks higher, and none
    /// before it ranks as high.
    pub open spec fn favours(nodes: Seq<NodeView>, i: int, a: int) -> bool {
        &&& 0 <= a < nodes[i].actions.len()
        &&& forall|e: int|
            0 <= e < nodes[i].actions.len() ==> #[trigger] Self::visit_key(nodes, i, e)
                <= Self::visit_key(nodes, i, a)
        &&& forall|e: int|
            0 <= e < a ==> #[trigger] Self::visit_key(nodes, i, e) < Self::visit_key(nodes, i, a)
    }

    /// `best` is the move to play from `pos` when the arena is `nodes` and
    /// its root `root`: the move of the edge of the root that
    /// [`Self::favours`] names; the first legal move of `pos` where the root
    /// has no edges yet; and none where `pos` has no move.
    pub open spec fn plays(nodes: Seq<NodeView>, root: int, pos: G, best: Option<u16>) -> bool {
        if nodes[root].actions.len() > 0 {
            exists|a: int|
                Self::favours(nodes, root, a) && best == Some(nodes[root].actions[a].mov())
        } else if pos.spec_legal_moves().len() > 0 {
            best == Some(pos.spec_legal_moves()[0])
        } else {
            best is None
        }
    }

    /// The move to play is decided by the arena and the position.
    pub proof fn lemma_plays_one(
        nodes: Seq<NodeView>,
        root: int,
        pos: G,
        first: Option<u16>,
        second: Option<u16>,
    )
        requires
            Self::plays(nodes, root, pos, first),
            Self::plays(nodes, root, pos, second),
        ensures
            first == second,
    {
        if nodes[root].actions.len() > 0 {
            let a = choose|a: int|
                Self::favours(nodes, root, a) && first == Some(nodes[root].actions[a].mov());
            let b = choose|b: int|
                Self::favours(nodes, root, b) && second == Some(nodes[root].actions[b].mov());
            Self::lemma_favours_one(nodes, root, a, b);
        }
    }

    /// What the search has proven is true of the game: where the root is
    /// marked as won, the side to move at the search's position can force a
    /// win, and where it is marked as lost, it cannot avoid the loss.
    pub proof fn lemma_sound(&self)
        requires
            self.wf(),
            self.spec_tree()@.len() > 0,
        ensures
            self.spec_tree()@[self.spec_tree().root() as int].state == GameState::Win ==> forced(
                self.position(),
                self.position().horizon(),
                true,
            ),
            self.spec_tree()@[self.spec_tree().root() as int].state == GameState::Loss ==> forced(
                self.position(),
                self.position().horizon(),
                false,
            ),
    {
        Tree::lemma_proven_is_forced(
            self.spec_tree()@,
            self.record(),
            self.spec_tree().root() as int,
        );
    }

    /// Between passes selection can be asked of every node from the root on:
    /// each child there has been visited, so that it has a mean value.
    pub proof fn lemma_selectable(&self, index: int)
        requires
            self.wf(),
            0 <= self.spec_tree().root() <= index < self.spec_tree()@.len(),
        ensures
            Tree::children_visited(self.spec_tree()@, index, -1),
    {
        assert(Tree::sound_at(self.spec_tree()@, index, -1));
    }

    /// No two edges are both the one to play.
    pub proof fn lemma_favours_one(nodes: Seq<NodeView>, i: int, first: int, second: int)
        requires
            Self::favours(nodes, i, first),
            Self::favours(nodes, i, second),
        ensures
            first == second,
    {
        if first < second {
            assert(Self::visit_key(nodes, i, first) < Self::visit_key(nodes, i, second));
            assert(Self::visit_key(nodes, i, second) <= Self::visit_key(nodes, i, first));
        }
        if second < first {
            assert(Self::visit_key(nodes, i, second) < Self::visit_key(nodes, i, first));
            assert(Self::visit_key(nodes, i, first) <= Self::visit_key(nodes, i, second));
        }
    }

    /// The move to play from the search's position: that of the most visited
    /// edge of the root, the first of them where several are level. A root
    /// that has no edges yet yields the position's first legal move, and there
    /// is no move only where the position has none.
    pub fn best_move(&self) -> (best: Option<u16>)
        requires
            self.wf(),
            self.spec_tree()@.len() > 0,
        ensures
            Self::plays(self.spec_tree()@, self.spec_tree().root() as int, self.position(), best),
            best is None <==> self.position().spec_legal_moves().len() == 0,
            best matches Some(mov) ==> self.position().spec_legal_moves().contains(mov),
    {
        let root = self.tree.root();
        let ghost nodes = self.tree@;
        let ghost i = root as int;
        let actions = self.tree.node(root).actions();
        proof {
            assert(Tree::placed_at(nodes, self.positions@, i));
        }
        if actions.len() == 0 {
            let moves = self.root.get_legal_moves();
            if moves.len() > 0 {
                return Some(moves[0]);
            } else {
                return None;
            }
        }
        let mut best: usize = 0;
        let mut max: i128 = -2;
        let mut e: usize = 0;
        while e < actions.len()
            invariant
                self.tree.wf(),
                nodes == self.tree@,
                0 <= i < nodes.len(),
                actions@ == nodes[i].actions,
                actions@.len() > 0,
                e <= actions@.len(),
                e == 0 ==> best == 0 && max == -2,
                e > 0 ==> best < e && max == Self::visit_key(nodes, i, best as int),
                forall|j: int| 0 <= j < e ==> #[trigger] Self::visit_key(nodes, i, j) <= max,
                forall|j: int| 0 <= j < best ==> #[trigger] Self::visit_key(nodes, i, j) < max,
            decreases actions@.len() - e,
        {
            let ptr = actions[e].ptr();
            assert(Tree::linked(nodes, i, e as int));
            let key: i128 = if ptr == -1 {
                -1
            } else {
                self.tree.node(ptr).visits() as i128
            };
            assert(key == Self::visit_key(nodes, i, e as int));
            if max < key {
                best = e;
                max = key;
            }
            e = e + 1;
        }
        let mov = actions[best].mov();
        proof {
            assert(Self::favours(nodes, i, best as int));
            assert(Tree::moves(nodes[i].actions)[best as int] == mov);
        }
        Some(mov)
    }

    /// What a run of `passes` passes from the root makes of the arena: every
    /// pass is counted at the root and adds one node at most; no node has
    /// lost anything, in the sense of [`Self::grown`], and those older than
    /// the root are not touched.
    pub open spec fn searched(
        before: Seq<NodeView>,
        after: Seq<NodeView>,
        root: int,
        passes: int,
    ) -> bool {
        &&& before.len() <= after.len() <= before.len() + passes
        &&& after[root].visits == before[root].visits + passes
        &&& forall|j: int|
            0 <= j < before.len() ==> {
                &&& Self::grown(before[j], #[trigger] after[j])
                &&& j < root ==> after[j] == before[j]
            }
    }

    /// The arena and the root that a run for `pos` starts from, once the tree
    /// has been asked for `pos`; see [`Tree::spec_subtree`].
    pub open spec fn spec_start(&self, pos: Option<G>) -> (Seq<NodeView>, int) {
        Tree::spec_subtree(
            self.spec_tree()@,
            self.spec_tree().root() as int,
            self.position(),
            pos,
        )
    }

    /// The number of passes that went through the root between two states of
    /// the arena.
    pub open spec fn passes(before: Seq<NodeView>, after: Seq<NodeView>, root: int) -> int {
        after[root].visits - before[root].visits
    }

    /// Searches from `pos`, or from the position of the last run where `pos`
    /// is `None`, and returns the move to play.
    ///
    /// A new position is first looked up in the tree, see [`Tree::subtree`].
    /// Then passes run from the root, see [`Self::ran`]; the first pass runs
    /// whatever the budget. After each pass the flag and the clock are read,
    /// and [`goes_on`] says whether another follows: none does once the root
    /// is decided, `max_nodes` passes are done, `abort` was seen raised or
    /// `max_time` is over. What the flag and the clock say is not known
    /// beforehand, so the number of passes is bounded here and not fixed. A
    /// pass needs room in the arena and in the root's counter, and the run
    /// ends without it. The move is the one that [`Self::best_move`] names.
    pub fn run<P: Exploration>(
        &mut self,
        pos: Option<G>,
        settings: &SearchSettings,
        params: &P,
        abort: &AtomicBool,
    ) -> (best: Option<u16>)
        requires
            old(self).wf(),
        ensures
            final(self).wf(),
            final(self).position() == (match pos {
                Some(p) => p,
                None => old(self).position(),
            }),
            final(self).spec_tree()@.len() > 0,
            final(self).spec_tree().root() == old(self).spec_start(pos).1,
            Self::ran(
                old(self).spec_start(pos).0,
                final(self).spec_tree()@,
                final(self).spec_tree().root() as int,
                final(self).position(),
            ),
            Self::searched(
                old(self).spec_start(pos).0,
                final(self).spec_tree()@,
                final(self).spec_tree().root() as int,
                Self::passes(
                    old(self).spec_start(pos).0,
                    final(self).spec_tree()@,
                    final(self).spec_tree().root() as int,
                ),
            ),
            0 <= Self::passes(
                old(self).spec_start(pos).0,
                final(self).spec_tree()@,
                final(self).spec_tree().root() as int,
            ) <= if settings.max_nodes == 0 {
                1
            } else {
                settings.max_nodes as int
            },
            Self::passes(
                old(self).spec_start(pos).0,
                final(self).spec_tree()@,
                final(self).spec_tree().root() as int,
            ) == 0 ==> final(self).spec_tree()@.len() == i32::MAX
                || final(self).spec_tree()@[final(self).spec_tree().root() as int].visits
                == u64::MAX,
            Self::passes(
                old(self).spec_start(pos).0,
                final(self).spec_tree()@,
                final(self).spec_tree().root() as int,
            ) > 0 ==> Self::tabled(final(self).spec_tree(), final(self).spec_tree().root() as int),
            final(self).spec_tree().spec_table().len() == old(self).spec_tree().spec_table().len(),
            Self::plays(
                final(self).spec_tree()@,
                final(self).spec_tree().root() as int,
                final(self).position(),
                best,
            ),
            best is None <==> final(self).position().spec_legal_moves().len() == 0,
            best matches Some(mov) ==> final(self).position().spec_legal_moves().contains(mov),
    {
        let timer = Instant::now();
        let ghost target = match pos {
            Some(p) => p,
            None => self.root,
        };
        proof {
            if self.tree@.len() > 0 {
                assert(Tree::placed(self.tree@, self.positions@) && Tree::proven(
                    self.tree@,
                    self.positions@,
                ) && self.positions@[self.tree.root() as int] == self.root);
            }
        }
        self.tree.subtree(&self.root, &pos);
        if let Some(p) = pos {
            self.root = p;
        }
        self.positions = Ghost(
            choose|ps: Seq<G>|
                Tree::placed(self.tree@, ps) && Tree::proven(self.tree@, ps)
                    && #[trigger] ps[self.tree.root() as int] == target,
        );
        let root = self.tree.root();
        let ghost start = self.tree@;
        let ghost slots = self.tree.spec_table().len();
        let mut nodes: usize = 0;
        let ghost mut states = seq![start];
        let ghost mut rewards = Seq::<int>::empty();
        loop
            invariant_except_break
                nodes == 0 || nodes < settings.max_nodes,
                Self::searched(start, self.tree@, root as int, nodes as int),
                nodes > 0 ==> !self.tree@[root as int].is_terminal(),
            invariant
                Self::chained(target, root as int, states, rewards),
                states[0] == start,
                states.last() == self.tree@,
                rewards.len() == Self::passes(start, self.tree@, root as int),
                self.wf(),
                self.tree@.len() > 0,
                self.tree.root() == root,
                self.root == target,
                0 <= root < start.len(),
                self.tree.spec_table().len() == slots,
                nodes > 0 ==> Self::tabled(self.tree, root as int),
            ensures
                Self::ran(start, self.tree@, root as int, target),
                self.wf(),
                self.tree@.len() > 0,
                self.tree.root() == root,
                self.root == target,
                Self::searched(
                    start,
                    self.tree@,
                    root as int,
                    Self::passes(start, self.tree@, root as int),
                ),
                0 <= Self::passes(start, self.tree@, root as int) <= if settings.max_nodes == 0 {
                    1
                } else {
                    settings.max_nodes as int
                },
                Self::passes(start, self.tree@, root as int) == 0 ==> self.tree@.len() == i32::MAX
                    || self.tree@[root as int].visits == u64::MAX,
                Self::passes(start, self.tree@, root as int) > 0 ==> Self::tabled(
                    self.tree,
                    root as int,
                ),
            decreases settings.max_nodes - nodes,
        {
            if self.tree.len() == i32::MAX || self.tree.node(root).visits() == u64::MAX {
                break ;
            }
            let mut scratch = self.root;
            let ghost before = self.tree@;
            proof {
                assert forall|i: int| root <= i < before.len() implies #[trigger] Tree::sound_at(before, i, root as int) by {
                    assert(Tree::sound_at(before, i, -1));
                }
            }
            let reward = self.execute_iteration(root, &mut scratch, params);
            proof {
                let after = self.tree@;
                let parent = before[root as int].parent as int;
                assert forall|i: int| root <= i < after.len() implies #[trigger] Tree::sound_at(after, i, -1) by {
                    assert(Self::settled_at(after, i, true, parent));
                }
                let path = choose|path: Seq<int>|
                    Self::traced(before, after, root as int, reward as int, path);
                assert forall|j: int| 0 <= j < start.len() implies {
                    &&& Self::grown(start[j], #[trigger] after[j])
                    &&& j < root ==> after[j] == start[j]
                } by {
                    assert(Self::kept(before, after, root as int, j));
                    assert(Self::left(before, after, path, j));
                    Self::lemma_grown_twice(start[j], before[j], after[j]);
                }
                assert(Self::searched(start, after, root as int, nodes + 1));
                let done = states;
                let brought = rewards;
                states = done.push(after);
                rewards = brought.push(reward as int);
                assert forall|i: int| 0 <= i < rewards.len() implies #[trigger] Self::pass_at(
                    target,
                    root as int,
                    states,
                    rewards,
                    i,
                ) by {
                    if i < brought.len() {
                        assert(Self::pass_at(target, root as int, done, brought, i));
                    }
                }
                assert forall|i: int| 1 <= i < rewards.len() implies !(#[trigger] states[i])[root as int].is_terminal() by {
                    if i < brought.len() {
                        assert(!done[i][root as int].is_terminal());
                    } else {
                        assert(states[i] == before);
                    }
                }
                assert(states.len() == rewards.len() + 1);
                assert(Self::chained(target, root as int, states, rewards));
                assert(states[0] == start);
                assert(states.last() == after);
                assert(rewards.len() == Self::passes(start, after, root as int));
                assert(Self::ran(start, after, root as int, target));
            }
            let decided = self.tree.node(root).is_terminal();
            let elapsed = match settings.max_time {
                Some(_) => timer.elapsed().as_millis(),
                None => 0,
            };
            if !goes_on(nodes + 1, settings, decided, raised(abort), elapsed) {
                break ;
            }
            nodes = nodes + 1;
        }
        self.best_move()
    }

    /// What a finished playout is worth to the side that was to move at its
    /// start: nothing for a draw; otherwise a unit lost where the same side is
    /// to move at the end, and a unit won where the other is.
    pub fn playout_reward(outcome: GameState, same_side: bool) -> (reward: i32)
        ensures
            reward == match outcome {
                GameState::Draw => 0,
                _ => if same_side {
                    -(UNIT as int)
                } else {
                    UNIT as int
                },
            },
    {
        match outcome {
            GameState::Draw => 0,
            _ => if same_side {
                -UNIT
            } else {
                UNIT
            },
        }
    }

    /// Values `pos` by one random playout to the end of the game, which is
    /// left in `pos`; see [`Self::playout_reward`].
    pub fn simulate(pos: &mut G) -> (reward: i32)
        ensures
            final(pos).spec_game_state() != GameState::Ongoing,
            old(pos).spec_game_state() != GameState::Ongoing ==> *final(pos) == *old(pos),
            reward == match final(pos).spec_game_state() {
                GameState::Draw => 0,
                _ => if old(pos).spec_side_to_move() == final(pos).spec_side_to_move() {
                    -(UNIT as int)
                } else {
                    UNIT as int
                },
            },
    {
        let side_to_move = pos.side_to_move();
        playout(pos);
        Self::playout_reward(pos.game_state(), side_to_move == pos.side_to_move())
    }

    /// The reward that node `index` is worth to the side to move there: what
    /// its state says where the game is decided, and the position's own
    /// evaluation where it is not.
    fn get_utility(&self, index: i32, pos: &mut G) -> (reward: i32)
        requires
            0 <= index < self.tree@.len(),
        ensures
            -UNIT <= reward <= UNIT,
            self.tree@[index as int].state != GameState::Ongoing ==> reward
                == self.tree@[index as int].state.spec_utility(),
    {
        match self.tree.node(index).game_state() {
            GameState::Ongoing => pos.get_value(),
            GameState::Win => UNIT,
            GameState::Draw => 0,
            GameState::Loss => -UNIT,
        }
    }

    /// Picks the edge to follow from node `index`: the one that
    /// [`Tree::select`] picks with the exploration term of the coefficient
    /// that `params` gives for the node. What the coefficient is, is up to
    /// `params`.
    fn pick_action<P: Exploration>(&mut self, index: i32, params: &P) -> (action: usize)
        requires
            old(self).tree.wf(),
            0 <= index < old(self).tree@.len(),
            old(self).tree@[index as int].actions.len() > 0,
            Tree::children_visited(old(self).tree@, index as int, -1),
        ensures
            exists|cpuct: u32, term: int| #[trigger]
                Self::weighs(cpuct, old(self).tree@[index as int].visits, term) && Tree::selects(
                    old(self).tree@,
                    index as int,
                    term,
                    action as int,
                ),
            final(self).tree@ == old(self).tree@.update(
                index as int,
                NodeView {
                    state: Tree::verdict(old(self).tree@, index as int),
                    ..old(self).tree@[index as int]
                },
            ),
            final(self).tree.root() == old(self).tree.root(),
            final(self).tree.spec_table() == old(self).tree.spec_table(),
            final(self).tree.wf(),
            final(self).root == old(self).root,
            final(self).positions == old(self).positions,
    {
        let node = self.tree.node(index);
        let cpuct = params.cpuct(node);
        let term = exploration(cpuct, node.visits());
        assert(Self::weighs(cpuct, node.visits(), term as int));
        self.tree.select(index, term)
    }

    /// One pass of the search through node `index`, which stands for `pos`.
    ///
    /// A node that has not been visited, or whose game is decided, is worth
    /// its utility. Any other node is expanded if it has no edges yet, picks
    /// an edge, plays its move on `pos`, makes the child if the edge has none,
    /// and passes on into the child. Either way the reward changes sign, is
    /// booked at the node and handed back.
    pub fn execute_iteration<P: Exploration>(
        &mut self,
        index: i32,
        pos: &mut G,
        params: &P,
    ) -> (reward: i32)
        requires
            Self::ready(
                old(self).spec_tree()@,
                old(self).spec_tree().root() as int,
                old(self).record(),
                index as int,
                *old(pos),
            ),
            old(self).spec_tree().wf(),
        ensures
            Self::passed(
                old(self).spec_tree()@,
                final(self).spec_tree()@,
                old(self).spec_tree().root() as int,
                index as int,
                reward as int,
            ),
            final(self).spec_tree().wf(),
            final(self).spec_tree().root() == old(self).spec_tree().root(),
            final(self).position() == old(self).position(),
            Tree::placed(final(self).spec_tree()@, final(self).record()),
            Tree::proven(final(self).spec_tree()@, final(self).record()),
            Self::extends(old(self).record(), final(self).record()),
            final(self).spec_tree().spec_table().len() == old(self).spec_tree().spec_table().len(),
            Self::tabled(final(self).spec_tree(), index as int),
            Self::walked(
                old(self).spec_tree()@,
                final(self).spec_tree()@,
                index as int,
                *old(pos),
                reward as int,
            ),
        decreases old(self).spec_tree()@[index as int].visits,
    {
        let ghost s0 = self.tree@;
        let ghost p0 = self.positions@;
        let ghost root = self.tree.root() as int;
        let ghost i = index as int;
        let ghost pos0 = *pos;
        let ghost mut s3 = s0;
        let ghost mut a = 0int;
        let ghost mut c = 0int;
        let ghost mut below = 0int;
        let ghost mut term = 0int;
        let ghost mut fresh = false;
        let ghost mut path = Seq::<int>::empty();
        let ghost mut terms = Seq::<int>::empty();
        let ghost mut next = pos0;
        let visits = self.tree.node(index).visits();
        let terminal = self.tree.node(index).is_terminal();
        let reward = if visits == 0 || terminal {
            self.get_utility(index, pos)
        } else {
            proof {
                assert(Tree::sound_at(s0, i, i));
                assert(Tree::balanced_at(s0, i));
                assert(Tree::placed_at(s0, p0, i));
                pos0.lemma_moves_iff_ongoing();
            }
            if self.tree.node(index).is_not_expanded() {
                self.tree.node_mut(index).expand(pos);
                proof {
                    Self::lemma_expanded(s0, s0, self.tree@, root, p0, i, pos0);
                }
            } else {
                proof {
                    Self::lemma_started(s0, root, p0, i, pos0);
                }
            }
            let ghost s1 = self.tree@;
            proof {
                assert(s1 =~= Self::opened(s0, i, pos0));
                assert(Tree::placed_at(s1, p0, i));
                assert(Tree::sound_at(s1, i, i));
                assert(Tree::balanced_at(s1, i));
            }
            let action = self.pick_action(index, params);
            let ghost s2 = self.tree@;
            proof {
                let found = choose|cpuct: u32, term: int| #[trigger]
                    Self::weighs(cpuct, s1[i].visits, term) && Tree::selects(
                        s1,
                        i,
                        term,
                        action as int,
                    );
                term = found.1;
                assert(Self::weighs(found.0, s0[i].visits, term));
                Tree::lemma_first_forced_found(s1, i, 0);
                Self::lemma_judged(s0, s1, s2, root, p0, i, pos0);
                assert(Tree::placed_at(s2, p0, i));
            }
            let edge = self.tree.edge(index, action);
            let mut edge_ptr = edge.ptr();
            let mov = edge.mov();
            proof {
                assert(Tree::moves(s2[i].actions)[action as int] == mov);
                assert(pos0.spec_legal_moves().contains(mov));
                assert(Tree::linked(s2, i, action as int));
                assert(Tree::child(s2, i, action as int) == edge_ptr);
            }
            pos.make_move(mov);
            if edge_ptr == -1 {
                edge_ptr = self.tree.add(pos.game_state(), pos.hash(), index);
                self.tree.edge_mut(index, action).set_ptr(edge_ptr);
                self.positions = Ghost(p0.push(*pos));
                proof {
                    fresh = true;
                    // The edge had no child, so the scan proved nothing.
                    assert(Tree::forced(s1, i, action as int));
                    assert(Tree::first_forced(s1, i, 0) == action);
                    assert(s2[i].state == GameState::Ongoing);
                    Self::lemma_linked(s0, s2, self.tree@, root, p0, i, pos0, action as int);
                }
            } else {
                proof {
                    Self::lemma_entered(s0, s2, root, p0, i, pos0, action as int);
                }
            }
            proof {
                s3 = self.tree@;
                a = action as int;
                c = edge_ptr as int;
                next = *pos;
                assert(s3 =~= Self::lowered(s0, i, pos0, a));
            }
            let reward = self.execute_iteration(edge_ptr, pos, params);
            proof {
                below = reward as int;
                path = choose|path: Seq<int>| Self::traced(s3, self.tree@, c, below, path);
                terms = choose|terms: Seq<int>|
                    Self::replayed(s3, self.tree@, c, next, below, terms);
            }
            reward
        };
        let ghost s4 = self.tree@;
        let reward = -reward;
        proof {
            if !(visits == 0 || terminal) {
                assert(Self::kept(s3, s4, c, i));
            }
        }
        self.tree.propagate(index, reward);
        proof {
            if visits == 0 || terminal {
                Self::lemma_leaf(s0, self.tree@, root, p0, i, pos0, reward as int);
                Self::lemma_traced_leaf(s0, self.tree@, i, reward as int);
                path = seq![i];
            } else {
                Self::lemma_inner(s0, s3, s4, self.tree@, root, i, a, c, below);
                Self::lemma_placed_stats(s4, self.tree@, self.positions@);
                Self::lemma_proven_stats(s4, self.tree@, self.positions@);
                let after = self.tree@;
                let ready = Self::opened(s0, i, pos0);
                assert(Self::kept(s3, s4, c, c));
                assert(after[i].actions == s3[i].actions);
                assert(Tree::child(after, i, a) == c);
                assert forall|e: int|
                    0 <= e < ready[i].actions.len() && e != a implies #[trigger] after[i].actions[e]
                    == ready[i].actions[e] by {
                }
                if fresh {
                    assert(s3[c].visits == 0);
                    assert(s4 == s3.update(c, Self::bumped(s3[c], below)));
                } else {
                    assert(s3[c] == s0[c]);
                }
                assert(Self::followed(s0, after, i, pos0, term, a, reward as int));
                assert(Self::traced(s0, after, i, reward as int, seq![i] + path)) by {
                    Self::lemma_followed_grown(s0, after, i, pos0, term, a, reward as int);
                    Self::lemma_traced_inner(s0, s3, s4, after, i, a, c, below, path);
                }
                assert((seq![i] + path)[1] == path[0]);
                path = seq![i] + path;
                assert(Self::followed(
                    old(self).spec_tree()@,
                    self.spec_tree()@,
                    index as int,
                    pos0,
                    term,
                    a,
                    reward as int,
                ) && path.len() > 1 && path[1] == Tree::child(self.spec_tree()@, index as int, a));
                assert(Self::descended(
                    old(self).spec_tree()@,
                    self.spec_tree()@,
                    index as int,
                    pos0,
                    reward as int,
                ));
            }
            assert(Self::traced(
                old(self).spec_tree()@,
                self.spec_tree()@,
                index as int,
                reward as int,
                path,
            ));
            if !(visits == 0 || terminal) {
                Self::lemma_replayed_inner(s0, s3, s4, self.tree@, i, pos0, a, term, below, terms);
                terms = seq![term] + terms;
            }
            assert(Self::replayed(
                old(self).spec_tree()@,
                self.spec_tree()@,
                index as int,
                pos0,
                reward as int,
                terms,
            ));
        }
        reward
    }
}

} // verus!
