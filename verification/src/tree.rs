pub mod edge;
pub mod hash;
pub mod ledger;
pub mod node;
pub mod select;

use crate::game::{forced, lemma_forced_deeper, Game, GameState, UNIT};
use crate::tree::edge::Edge;
use crate::tree::hash::{HashEntry, HashTable};
use crate::tree::node::{Node, NodeView};
use vstd::prelude::*;

verus! {

/// The arena of the search: nodes are appended, addressed by their index and
/// never removed; `root` names the node the search currently starts from, `-1`
/// while the arena is empty. A table of the latest statistics per position hash
/// rides along.
pub struct Tree {
    root: i32,
    nodes: Vec<Node>,
    table: HashTable,
}

impl View for Tree {
    type V = Seq<NodeView>;

    closed spec fn view(&self) -> Seq<NodeView> {
        Tree::views(self.nodes@)
    }
}

impl Tree {
    /// The nodes as contracts see them.
    spec fn views(nodes: Seq<Node>) -> Seq<NodeView> {
        Seq::new(nodes.len(), |i: int| nodes[i]@)
    }

    proof fn lemma_views_update(nodes: Seq<Node>, i: int, node: Node)
        requires
            0 <= i < nodes.len(),
        ensures
            Self::views(nodes.update(i, node)) == Self::views(nodes).update(i, node@),
    {
        assert(Self::views(nodes.update(i, node)) =~= Self::views(nodes).update(i, node@));
    }

    pub closed spec fn spec_root(&self) -> i32 {
        self.root
    }

    /// The slots of the statistics table.
    pub closed spec fn spec_table(&self) -> Seq<HashEntry> {
        self.table@
    }

    pub closed spec fn table_wf(&self) -> bool {
        &&& self.table.wf()
        &&& self.table.spec_size() > 0
        &&& self.table@.len() == self.table.spec_size()
    }

    pub open spec fn spec_len(&self) -> i32 {
        self@.len() as i32
    }

    pub open spec fn spec_is_empty(&self) -> bool {
        self@.len() == 0
    }

    /// The child that edge `e` of node `i` leads to, `-1` where there is none yet.
    pub open spec fn child(nodes: Seq<NodeView>, i: int, e: int) -> int {
        nodes[i].actions[e].ptr() as int
    }

    /// An edge either has no child, or its child is a later node of the arena
    /// that names the edge's owner as its parent.
    pub open spec fn linked(nodes: Seq<NodeView>, i: int, e: int) -> bool {
        let c = Self::child(nodes, i, e);
        c == -1 || (i < c < nodes.len() && nodes[c].parent == i)
    }

    /// The shape that makes the arena a forest: every edge is linked, and no
    /// two edges of one node share a child.
    pub open spec fn shaped(nodes: Seq<NodeView>) -> bool {
        &&& forall|i: int| 0 <= i < nodes.len() ==> (#[trigger] nodes[i]).wf()
        &&& forall|i: int, e: int|
            0 <= i < nodes.len() && 0 <= e < nodes[i].actions.len() ==> #[trigger] Self::linked(
                nodes,
                i,
                e,
            )
        &&& forall|i: int, e: int, f: int|
            0 <= i < nodes.len() && 0 <= e < f < nodes[i].actions.len() && Self::child(nodes, i, e)
                != -1 ==> #[trigger] Self::child(nodes, i, e) != #[trigger] Self::child(nodes, i, f)
    }

    /// The arena is well formed: it is shaped as a forest, small enough for its
    /// indices, has a table to write to, and a root unless it is empty.
    pub open spec fn wf(&self) -> bool {
        &&& self@.len() <= i32::MAX
        &&& self.table_wf()
        &&& if self@.len() == 0 {
            self.root() == -1
        } else {
            0 <= self.root() < self@.len()
        }
        &&& Self::shaped(self@)
    }

    /// A node as it is when it has just been created.
    pub open spec fn fresh(state: GameState, hash: u64, parent: i32) -> NodeView {
        NodeView { parent, state, hash, actions: Seq::<Edge>::empty(), value: 0, visits: 0 }
    }

    /// An empty arena whose table has `capacity` slots.
    pub fn new(capacity: usize) -> (tree: Tree)
        requires
            capacity > 0,
        ensures
            tree.wf(),
            tree@.len() == 0,
            tree.root() == -1,
            tree.spec_table().len() == capacity,
    {
        let tree = Tree { root: -1, nodes: Vec::new(), table: HashTable::new(capacity) };
        assert(tree@ =~= Seq::<NodeView>::empty());
        tree
    }

    #[verifier::when_used_as_spec(spec_root)]
    pub fn root(&self) -> (root: i32)
        ensures
            root == self.root(),
    {
        self.root
    }

    /// Appends a node without statistics and returns its index; the first node
    /// of an arena becomes its root.
    pub fn add(&mut self, state: GameState, hash: u64, parent: i32) -> (index: i32)
        requires
            old(self).wf(),
            old(self)@.len() < i32::MAX,
        ensures
            final(self).wf(),
            index == old(self)@.len(),
            final(self)@ == old(self)@.push(Self::fresh(state, hash, parent)),
            final(self).root() == if old(self).root() == -1 {
                index
            } else {
                old(self).root()
            },
            final(self).spec_table() == old(self).spec_table(),
    {
        let index = self.len();
        self.nodes.push(Node::new(state, hash, parent));
        if self.root == -1 {
            self.set_root(index);
        }
        proof {
            assert(final(self)@ =~= old(self)@.push(Self::fresh(state, hash, parent)));
            Self::lemma_push_shaped(old(self)@, Self::fresh(state, hash, parent));
        }
        index
    }

    /// A node without edges can be appended to a shaped arena.
    proof fn lemma_push_shaped(nodes: Seq<NodeView>, node: NodeView)
        requires
            Self::shaped(nodes),
            node.actions.len() == 0,
            node.wf(),
        ensures
            Self::shaped(nodes.push(node)),
    {
        let next = nodes.push(node);
        assert forall|i: int, e: int|
            0 <= i < next.len() && 0 <= e < next[i].actions.len() implies #[trigger] Self::linked(
            next,
            i,
            e,
        ) by {
            assert(Self::linked(nodes, i, e));
        }
        assert forall|i: int, e: int, f: int|
            0 <= i < next.len() && 0 <= e < f < next[i].actions.len() && Self::child(next, i, e)
                != -1 implies #[trigger] Self::child(next, i, e) != #[trigger] Self::child(
            next,
            i,
            f,
        ) by {
            assert(Self::child(nodes, i, e) != Self::child(nodes, i, f));
        }
    }

    /// Books one pass through node `index` and records the node's new
    /// statistics in the table under the node's hash.
    pub fn propagate(&mut self, index: i32, reward: i32)
        requires
            old(self).wf(),
            0 <= index < old(self)@.len(),
            old(self)@[index as int].visits < u64::MAX,
            -UNIT <= reward <= UNIT,
        ensures
            final(self).wf(),
            final(self).root() == old(self).root(),
            final(self)@ == old(self)@.update(
                index as int,
                NodeView {
                    visits: (old(self)@[index as int].visits + 1) as u64,
                    value: (old(self)@[index as int].value + reward) as i128,
                    ..old(self)@[index as int]
                },
            ),
            final(self).spec_table() == old(self).spec_table().update(
                HashTable::spec_slot(
                    old(self)@[index as int].hash,
                    old(self).spec_table().len() as usize,
                ),
                HashEntry {
                    hash: old(self)@[index as int].hash,
                    visits: (old(self)@[index as int].visits + 1) as u64,
                    wins: (old(self)@[index as int].value + reward) as i128,
                },
            ),
            final(self).spec_table().len() == old(self).spec_table().len(),
            final(self).spec_table()[HashTable::spec_slot(
                old(self)@[index as int].hash,
                old(self).spec_table().len() as usize,
            )] == (HashEntry {
                hash: old(self)@[index as int].hash,
                visits: (old(self)@[index as int].visits + 1) as u64,
                wins: (old(self)@[index as int].value + reward) as i128,
            }),
    {
        self.nodes[index as usize].propagate(reward);
        let node = &self.nodes[index as usize];
        self.table.insert(node.hash(), node.visits(), node.value());
        proof {
            let after = old(self)@.update(
                index as int,
                NodeView {
                    visits: (old(self)@[index as int].visits + 1) as u64,
                    value: (old(self)@[index as int].value + reward) as i128,
                    ..old(self)@[index as int]
                },
            );
            assert(final(self)@ =~= after);
            Self::lemma_stats_shaped(old(self)@, after);
        }
    }

    /// Statistics and states play no part in the shape.
    proof fn lemma_stats_shaped(nodes: Seq<NodeView>, after: Seq<NodeView>)
        requires
            Self::shaped(nodes),
            after.len() == nodes.len(),
            forall|i: int|
                0 <= i < nodes.len() ==> {
                    &&& (#[trigger] after[i]).parent == nodes[i].parent
                    &&& after[i].actions == nodes[i].actions
                    &&& after[i].wf()
                },
        ensures
            Self::shaped(after),
    {
        assert forall|i: int, e: int|
            0 <= i < after.len() && 0 <= e < after[i].actions.len() implies #[trigger] Self::linked(
            after,
            i,
            e,
        ) by {
            assert(Self::linked(nodes, i, e));
            let c = Self::child(nodes, i, e);
            if c != -1 {
                assert(after[c].parent == nodes[c].parent);
            }
        }
        assert forall|i: int, e: int, f: int|
            0 <= i < after.len() && 0 <= e < f < after[i].actions.len() && Self::child(after, i, e)
                != -1 implies #[trigger] Self::child(after, i, e) != #[trigger] Self::child(
            after,
            i,
            f,
        ) by {
            assert(Self::child(nodes, i, e) != Self::child(nodes, i, f));
        }
    }

    /// Forgets every node and starts over with a single root for `pos`.
    pub fn reset<G: Game>(&mut self, pos: &G)
        requires
            old(self).wf(),
        ensures
            final(self).wf(),
            final(self).root() == 0,
            final(self)@ == seq![Self::fresh(pos.spec_game_state(), pos.spec_hash(), -1i32)],
            final(self).spec_table() == old(self).spec_table(),
    {
        self.nodes.clear();
        self.root = -1;
        assert(self@ =~= Seq::<NodeView>::empty());
        let node = self.add(pos.game_state(), pos.hash(), -1);
        self.set_root(node);
        assert(self@ =~= seq![Self::fresh(pos.spec_game_state(), pos.spec_hash(), -1i32)]);
    }

    #[verifier::when_used_as_spec(spec_is_empty)]
    pub fn is_empty(&self) -> (empty: bool)
        ensures
            empty == self.spec_is_empty(),
    {
        self.nodes.is_empty()
    }

    /// The number of nodes.
    #[verifier::when_used_as_spec(spec_len)]
    pub fn len(&self) -> (len: i32)
        requires
            self@.len() <= i32::MAX,
        ensures
            len == self@.len(),
    {
        self.nodes.len() as i32
    }

    /// The table of the latest statistics per position hash.
    pub fn table(&self) -> (table: &HashTable)
        ensures
            table@ == self.spec_table(),
            self.table_wf() ==> table.wf() && table.spec_size() > 0,
    {
        &self.table
    }

    /// The node at `index`.
    pub fn node(&self, index: i32) -> (node: &Node)
        requires
            0 <= index < self@.len(),
        ensures
            node@ == self@[index as int],
    {
        &self.nodes[index as usize]
    }

    /// The node at `index`, to be changed in place.
    pub fn node_mut(&mut self, index: i32) -> (node: &mut Node)
        requires
            0 <= index < old(self)@.len(),
        ensures
            node@ == old(self)@[index as int],
            final(self)@ == old(self)@.update(index as int, final(node)@),
            final(self).root() == old(self).root(),
            final(self).spec_table() == old(self).spec_table(),
            final(self).table_wf() == old(self).table_wf(),
    {
        proof {
            assert forall|node: Node| #[trigger]
                Self::views(self.nodes@.update(index as int, node)) == Self::views(
                    self.nodes@,
                ).update(index as int, node@) by {
                Self::lemma_views_update(self.nodes@, index as int, node);
            }
        }
        &mut self.nodes[index as usize]
    }

    /// Edge `edge` of the node at `index`.
    pub fn edge(&self, index: i32, edge: usize) -> (e: &Edge)
        requires
            0 <= index < self@.len(),
            edge < self@[index as int].actions.len(),
        ensures
            *e == self@[index as int].actions[edge as int],
    {
        &self.nodes[index as usize].actions()[edge]
    }

    /// Edge `edge` of the node at `index`, to be changed in place.
    pub fn edge_mut(&mut self, index: i32, edge: usize) -> (e: &mut Edge)
        requires
            0 <= index < old(self)@.len(),
            edge < old(self)@[index as int].actions.len(),
        ensures
            *e == old(self)@[index as int].actions[edge as int],
            final(self)@ == old(self)@.update(
                index as int,
                NodeView {
                    actions: old(self)@[index as int].actions.update(edge as int, *final(e)),
                    ..old(self)@[index as int]
                },
            ),
            final(self).root() == old(self).root(),
            final(self).spec_table() == old(self).spec_table(),
            final(self).table_wf() == old(self).table_wf(),
    {
        proof {
            assert forall|node: Node| #[trigger]
                Self::views(self.nodes@.update(index as int, node)) == Self::views(
                    self.nodes@,
                ).update(index as int, node@) by {
                Self::lemma_views_update(self.nodes@, index as int, node);
            }
        }
        self.nodes[index as usize].mut_edge(edge)
    }

    /// The move codes along a node's edges.
    pub open spec fn moves(actions: Seq<Edge>) -> Seq<u16> {
        Seq::new(actions.len(), |k: int| actions[k].mov())
    }

    /// Node `i` stands for position `ps[i]`: an ongoing node stands for an
    /// ongoing position, the edges of an expanded node are the position's legal
    /// moves, and each child stands for the position its edge's move leads to.
    pub open spec fn placed_at<G: Game>(nodes: Seq<NodeView>, ps: Seq<G>, i: int) -> bool {
        &&& nodes[i].state == GameState::Ongoing ==> ps[i].spec_game_state() == GameState::Ongoing
        &&& nodes[i].actions.len() > 0 ==> Self::moves(nodes[i].actions)
            == ps[i].spec_legal_moves()
        &&& forall|e: int|
            0 <= e < nodes[i].actions.len() && #[trigger] Self::child(nodes, i, e) != -1
                ==> ps[Self::child(nodes, i, e)] == ps[i].spec_make_move(nodes[i].actions[e].mov())
    }

    /// Every node of the arena stands for the position that `ps` holds at the
    /// node's index.
    pub open spec fn placed<G: Game>(nodes: Seq<NodeView>, ps: Seq<G>) -> bool {
        &&& ps.len() == nodes.len()
        &&& forall|i: int| 0 <= i < nodes.len() ==> #[trigger] Self::placed_at(nodes, ps, i)
    }

    /// The state of node `i` is founded: it is the state of the node's
    /// position, or the node is proven won by a child that is lost for the
    /// opponent, or proven lost by children for all of its moves that the
    /// opponent has won.
    pub open spec fn proven_at<G: Game>(nodes: Seq<NodeView>, ps: Seq<G>, i: int) -> bool {
        ||| nodes[i].state == ps[i].spec_game_state()
        ||| {
            &&& nodes[i].state == GameState::Win
            &&& ps[i].spec_game_state() == GameState::Ongoing
            &&& exists|e: int|
                0 <= e < nodes[i].actions.len() && #[trigger] Self::child(nodes, i, e) != -1
                    && nodes[Self::child(nodes, i, e)].state == GameState::Loss
        }
        ||| {
            &&& nodes[i].state == GameState::Loss
            &&& ps[i].spec_game_state() == GameState::Ongoing
            &&& nodes[i].actions.len() > 0
            &&& forall|e: int|
                0 <= e < nodes[i].actions.len() ==> #[trigger] Self::child(nodes, i, e) != -1
                    && nodes[Self::child(nodes, i, e)].state == GameState::Win
        }
    }

    /// The state of every node is founded.
    pub open spec fn proven<G: Game>(nodes: Seq<NodeView>, ps: Seq<G>) -> bool {
        forall|i: int| 0 <= i < nodes.len() ==> #[trigger] Self::proven_at(nodes, ps, i)
    }

    /// What the search proves is true of the game: the position of a node
    /// that is marked as won can be won by force, and that of a node marked
    /// as lost cannot be saved, whatever the node's statistics say.
    pub proof fn lemma_proven_is_forced<G: Game>(nodes: Seq<NodeView>, ps: Seq<G>, i: int)
        requires
            Self::shaped(nodes),
            Self::placed(nodes, ps),
            Self::proven(nodes, ps),
            0 <= i < nodes.len(),
        ensures
            nodes[i].state == GameState::Win ==> forced(ps[i], ps[i].horizon(), true),
            nodes[i].state == GameState::Loss ==> forced(ps[i], ps[i].horizon(), false),
        decreases nodes.len() - i,
    {
        assert(Self::proven_at(nodes, ps, i));
        assert(Self::placed_at(nodes, ps, i));
        let pos = ps[i];
        if nodes[i].state == GameState::Win && pos.spec_game_state() != GameState::Win {
            let e = choose|e: int|
                0 <= e < nodes[i].actions.len() && #[trigger] Self::child(nodes, i, e) != -1
                    && nodes[Self::child(nodes, i, e)].state == GameState::Loss;
            let c = Self::child(nodes, i, e);
            let mov = nodes[i].actions[e].mov();
            assert(Self::linked(nodes, i, e));
            assert(Self::moves(nodes[i].actions)[e] == mov);
            assert(pos.spec_legal_moves().contains(mov));
            Self::lemma_proven_is_forced(nodes, ps, c);
            pos.lemma_horizon_decreases(mov);
            lemma_forced_deeper(ps[c], ps[c].horizon(), (pos.horizon() - 1) as nat, false);
        }
        if nodes[i].state == GameState::Loss && pos.spec_game_state() != GameState::Loss {
            assert forall|mov: u16| #[trigger] pos.spec_legal_moves().contains(mov) implies forced(
                pos.spec_make_move(mov),
                (pos.horizon() - 1) as nat,
                true,
            ) by {
                let e = choose|e: int|
                    0 <= e < pos.spec_legal_moves().len() && pos.spec_legal_moves()[e] == mov;
                assert(Self::moves(nodes[i].actions)[e] == mov);
                let c = Self::child(nodes, i, e);
                assert(Self::linked(nodes, i, e));
                Self::lemma_proven_is_forced(nodes, ps, c);
                pos.lemma_horizon_decreases(mov);
                lemma_forced_deeper(ps[c], ps[c].horizon(), (pos.horizon() - 1) as nat, true);
            }
            let first = nodes[i].actions[0].mov();
            assert(Self::moves(nodes[i].actions)[0] == first);
            assert(pos.spec_legal_moves().contains(first));
            pos.lemma_horizon_decreases(first);
        }
    }

    /// The arena can be read as a record of play from `pos` at its root, in
    /// which every state is founded.
    pub open spec fn records<G: Game>(&self, pos: G) -> bool {
        exists|ps: Seq<G>|
            Self::placed(self@, ps) && Self::proven(self@, ps) && #[trigger] ps[self.root() as int]
                == pos
    }

    /// The node that a search for `board` finds: the walk starts at node `index`,
    /// which stands for `child`, follows recorded edges for at most `depth`
    /// plies, first edge first, and compares positions as it goes. `-1` says
    /// that the walk found nothing.
    pub open spec fn spec_find<G: Game>(
        nodes: Seq<NodeView>,
        index: int,
        child: G,
        board: G,
        depth: nat,
    ) -> int
        decreases depth, 1nat, 0nat,
    {
        if child == board {
            index
        } else if index == -1 || depth == 0 {
            -1
        } else {
            Self::spec_find_from(nodes, index, child, board, depth, 0)
        }
    }

    /// The part of the walk that tries the edges of `index` from edge `e` on.
    pub open spec fn spec_find_from<G: Game>(
        nodes: Seq<NodeView>,
        index: int,
        child: G,
        board: G,
        depth: nat,
        e: nat,
    ) -> int
        decreases depth, 0nat, nodes[index].actions.len() - e,
    {
        if depth == 0 || e >= nodes[index].actions.len() {
            -1
        } else {
            let edge = nodes[index].actions[e as int];
            let found = Self::spec_find(
                nodes,
                edge.ptr() as int,
                child.spec_make_move(edge.mov()),
                board,
                (depth - 1) as nat,
            );
            if found != -1 {
                found
            } else {
                Self::spec_find_from(nodes, index, child, board, depth, e + 1)
            }
        }
    }

    /// The arena after [`Tree::subtree`]: where the walk of two plies finds
    /// `pos`, nothing but the root changes; otherwise a single fresh root for
    /// `pos` is all that is left. An empty arena is always started afresh.
    pub open spec fn spec_subtree<G: Game>(
        nodes: Seq<NodeView>,
        root: int,
        from: G,
        pos: Option<G>,
    ) -> (Seq<NodeView>, int) {
        let target = match pos {
            Some(p) => p,
            None => from,
        };
        let found = Self::spec_find(nodes, root, from, target, 2);
        if nodes.len() == 0 || found == -1 {
            (seq![Self::fresh(target.spec_game_state(), target.spec_hash(), -1i32)], 0)
        } else {
            (nodes, found)
        }
    }

    /// Edge `e` of node `i` has a child, and its move leads from `from` to
    /// `target`.
    pub open spec fn reaches<G: Game>(
        nodes: Seq<NodeView>,
        i: int,
        from: G,
        target: G,
        e: int,
    ) -> bool {
        &&& 0 <= e < nodes[i].actions.len()
        &&& Self::child(nodes, i, e) != -1
        &&& from.spec_make_move(nodes[i].actions[e].mov()) == target
    }

    /// Edge `e` of node `i` has a child, and edge `f` of that child reaches
    /// `target` in turn.
    pub open spec fn reaches_twice<G: Game>(
        nodes: Seq<NodeView>,
        i: int,
        from: G,
        target: G,
        e: int,
        f: int,
    ) -> bool {
        &&& 0 <= e < nodes[i].actions.len()
        &&& Self::child(nodes, i, e) != -1
        &&& Self::reaches(
            nodes,
            Self::child(nodes, i, e),
            from.spec_make_move(nodes[i].actions[e].mov()),
            target,
            f,
        )
    }

    /// No recorded path of one or two plies that starts with edge `e` of node
    /// `i` leads to `target`.
    pub open spec fn misses<G: Game>(
        nodes: Seq<NodeView>,
        i: int,
        from: G,
        target: G,
        e: int,
    ) -> bool {
        &&& !Self::reaches(nodes, i, from, target, e)
        &&& forall|f: int| !#[trigger] Self::reaches_twice(nodes, i, from, target, e, f)
    }

    proof fn lemma_last_ply_misses<G: Game>(
        nodes: Seq<NodeView>,
        i: int,
        from: G,
        target: G,
        e: nat,
    )
        requires
            forall|f: int| f >= e ==> !#[trigger] Self::reaches(nodes, i, from, target, f),
        ensures
            Self::spec_find_from(nodes, i, from, target, 1, e) == -1,
        decreases nodes[i].actions.len() - e,
    {
        if e < nodes[i].actions.len() {
            assert(!Self::reaches(nodes, i, from, target, e as int));
            Self::lemma_last_ply_misses(nodes, i, from, target, e + 1);
            let edge = nodes[i].actions[e as int];
            assert(Self::spec_find(
                nodes,
                edge.ptr() as int,
                from.spec_make_move(edge.mov()),
                target,
                0,
            ) == -1);
        }
    }

    proof fn lemma_edge_misses<G: Game>(
        nodes: Seq<NodeView>,
        i: int,
        from: G,
        target: G,
        e: int,
    )
        requires
            0 <= e < nodes[i].actions.len(),
            Self::misses(nodes, i, from, target, e),
        ensures
            Self::spec_find(
                nodes,
                Self::child(nodes, i, e),
                from.spec_make_move(nodes[i].actions[e].mov()),
                target,
                1,
            ) == -1,
    {
        let c = Self::child(nodes, i, e);
        let next = from.spec_make_move(nodes[i].actions[e].mov());
        if c != -1 {
            assert(next != target);
            assert forall|f: int| f >= 0 implies !#[trigger] Self::reaches(
                nodes,
                c,
                next,
                target,
                f,
            ) by {
                assert(!Self::reaches_twice(nodes, i, from, target, e, f));
            }
            Self::lemma_last_ply_misses(nodes, c, next, target, 0);
        }
    }

    proof fn lemma_edges_miss<G: Game>(
        nodes: Seq<NodeView>,
        i: int,
        from: G,
        target: G,
        start: nat,
        end: nat,
    )
        requires
            start <= end <= nodes[i].actions.len(),
            forall|e: int| start <= e < end ==> #[trigger] Self::misses(nodes, i, from, target, e),
        ensures
            Self::spec_find_from(nodes, i, from, target, 2, start) == Self::spec_find_from(
                nodes,
                i,
                from,
                target,
                2,
                end,
            ),
        decreases end - start,
    {
        if start < end {
            assert(Self::misses(nodes, i, from, target, start as int));
            Self::lemma_edge_misses(nodes, i, from, target, start as int);
            Self::lemma_edges_miss(nodes, i, from, target, start + 1, end);
        }
    }

    /// Reuse finds the child: where `target` differs from the root's position,
    /// edge `e` of the root reaches it, and no earlier edge of the root starts a
    /// recorded path of one or two plies to it, the arena stays as it is and the
    /// child of edge `e` becomes the root.
    pub proof fn lemma_reuse_hit<G: Game>(
        nodes: Seq<NodeView>,
        root: int,
        from: G,
        target: G,
        e: int,
    )
        requires
            0 <= root < nodes.len(),
            from != target,
            Self::reaches(nodes, root, from, target, e),
            forall|j: int| 0 <= j < e ==> #[trigger] Self::misses(nodes, root, from, target, j),
        ensures
            Self::spec_find(nodes, root, from, target, 2) == Self::child(nodes, root, e),
            Self::spec_subtree(nodes, root, from, Some(target)) == (
                nodes,
                Self::child(nodes, root, e),
            ),
    {
        Self::lemma_edges_miss(nodes, root, from, target, 0, e as nat);
        let edge = nodes[root].actions[e];
        assert(Self::spec_find(
            nodes,
            edge.ptr() as int,
            from.spec_make_move(edge.mov()),
            target,
            1,
        ) == edge.ptr());
    }

    /// Reuse misses: where `target` differs from the root's position and no
    /// recorded path of one or two plies leads from the root to it, nothing is
    /// kept but a single root for `target`, without visits, value or edges.
    pub proof fn lemma_reuse_miss<G: Game>(nodes: Seq<NodeView>, root: int, from: G, target: G)
        requires
            from != target,
            forall|e: int|
                0 <= e < nodes[root].actions.len() ==> #[trigger] Self::misses(
                    nodes,
                    root,
                    from,
                    target,
                    e,
                ),
        ensures
            Self::spec_find(nodes, root, from, target, 2) == -1,
            Self::spec_subtree(nodes, root, from, Some(target)) == (
                seq![Self::fresh(target.spec_game_state(), target.spec_hash(), -1i32)],
                0int,
            ),
            Self::spec_subtree(nodes, root, from, Some(target)).0[0].visits == 0,
    {
        let n = nodes[root].actions.len();
        Self::lemma_edges_miss(nodes, root, from, target, 0, n);
    }

    /// Moves the root to the node that stands for `pos`, where the arena holds
    /// one within two plies of the present root, and starts afresh otherwise.
    /// `root` is the position of the present root. Without a new position the
    /// arena stays as it is.
    pub fn subtree<G: Game>(&mut self, root: &G, pos: &Option<G>)
        requires
            old(self).wf(),
            old(self)@.len() > 0 ==> old(self).records(*root),
        ensures
            final(self).wf(),
            final(self).spec_table() == old(self).spec_table(),
            final(self)@ == Self::spec_subtree(old(self)@, old(self).root() as int, *root, *pos).0,
            final(self).root() == Self::spec_subtree(
                old(self)@,
                old(self).root() as int,
                *root,
                *pos,
            ).1,
            final(self).records(
                match *pos {
                    Some(p) => p,
                    None => *root,
                },
            ),
            final(self)@.len() > 0,
            old(self)@.len() > 0 && Self::accounted(old(self)@, old(self).root() as int)
                ==> Self::accounted(final(self)@, final(self).root() as int),
            old(self)@.len() == 0 ==> Self::accounted(final(self)@, final(self).root() as int),
    {
        if self.is_empty() {
            match pos {
                Some(p) => {
                    self.reset(p);
                    proof {
                        Self::lemma_fresh_records(self@, *p);
                        assert(seq![*p][self.root() as int] == *p);
                        Self::lemma_fresh_accounted(self@);
                    }
                },
                None => {
                    self.reset(root);
                    proof {
                        Self::lemma_fresh_records(self@, *root);
                        assert(seq![*root][self.root() as int] == *root);
                        Self::lemma_fresh_accounted(self@);
                    }
                },
            }
            return ;
        }
        if let Some(p) = pos {
            let ghost ps = choose|ps: Seq<G>|
                Self::placed(self@, ps) && Self::proven(self@, ps) && #[trigger] ps[self.root() as int]
                    == *root;
            let node = self.find(self.root, root, p, 2, Ghost(ps));
            if node == -1 {
                self.reset(p);
                proof {
                    Self::lemma_fresh_records(self@, *p);
                    assert(seq![*p][self.root() as int] == *p);
                    Self::lemma_fresh_accounted(self@);
                }
                return ;
            }
            self.set_root(node);
            assert(Self::placed(self@, ps) && Self::proven(self@, ps) && ps[self.root() as int]
                == *p);
        }
    }

    /// The books of a single node without visits or edges balance.
    proof fn lemma_fresh_accounted(nodes: Seq<NodeView>)
        requires
            nodes.len() == 1,
            nodes[0].visits == 0,
            nodes[0].actions.len() == 0,
        ensures
            Self::accounted(nodes, 0),
    {
        assert forall|i: int| 0 <= i < nodes.len() implies #[trigger] Self::sound_at(
            nodes,
            i,
            -1,
        ) by {
        }
    }

    /// A single fresh node records play from the position it was made for.
    proof fn lemma_fresh_records<G: Game>(nodes: Seq<NodeView>, pos: G)
        requires
            nodes == seq![Self::fresh(pos.spec_game_state(), pos.spec_hash(), -1i32)],
        ensures
            Self::placed(nodes, seq![pos]),
            Self::proven(nodes, seq![pos]),
    {
        let ps = seq![pos];
        assert(Self::placed_at(nodes, ps, 0));
        assert(Self::proven_at(nodes, ps, 0));
    }

    fn find<G: Game>(
        &self,
        index: i32,
        child: &G,
        board: &G,
        depth: usize,
        Ghost(ps): Ghost<Seq<G>>,
    ) -> (found: i32)
        requires
            self.wf(),
            Self::placed(self@, ps),
            index == -1 || (0 <= index < self@.len() && ps[index as int] == *child),
        ensures
            found == Self::spec_find(self@, index as int, *child, *board, depth as nat),
            found == -1 || (index <= found < self@.len() && ps[found as int] == *board),
        decreases depth,
    {
        if child.equals(board) {
            return index;
        }
        if index == -1 || depth == 0 {
            return -1;
        }
        let node = &self.nodes[index as usize];
        let actions = node.actions();
        let mut e: usize = 0;
        assert(Self::placed_at(self@, ps, index as int));
        while e < actions.len()
            invariant
                self.wf(),
                Self::placed(self@, ps),
                0 <= index < self@.len(),
                ps[index as int] == *child,
                *child != *board,
                depth > 0,
                actions@ == self@[index as int].actions,
                e <= actions@.len(),
                Self::spec_find_from(self@, index as int, *child, *board, depth as nat, 0)
                    == Self::spec_find_from(
                    self@,
                    index as int,
                    *child,
                    *board,
                    depth as nat,
                    e as nat,
                ),
            decreases actions@.len() - e,
        {
            let action = &actions[e];
            let mut next = *child;
            proof {
                assert(Self::placed_at(self@, ps, index as int));
                assert(Self::moves(actions@)[e as int] == action.mov());
                assert(child.spec_legal_moves().contains(action.mov()));
                assert(Self::linked(self@, index as int, e as int));
                assert(Self::child(self@, index as int, e as int) == action.ptr());
            }
            next.make_move(action.mov());
            let found = self.find(action.ptr(), &next, board, depth - 1, Ghost(ps));
            proof {
                let here = Self::spec_find_from(
                    self@,
                    index as int,
                    *child,
                    *board,
                    depth as nat,
                    e as nat,
                );
                assert(here == if found != -1 {
                    found as int
                } else {
                    Self::spec_find_from(
                        self@,
                        index as int,
                        *child,
                        *board,
                        depth as nat,
                        (e + 1) as nat,
                    )
                });
            }
            if found != -1 {
                return found;
            }
            e = e + 1;
        }
        -1
    }

    fn set_root(&mut self, root: i32)
        ensures
            final(self).root == root,
            final(self).nodes == old(self).nodes,
            final(self).table == old(self).table,
    {
        self.root = root;
    }
}

} // verus!
