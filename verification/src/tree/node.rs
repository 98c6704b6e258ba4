use crate::game::{Game, GameState, UNIT};
use crate::tree::edge::Edge;
use vstd::prelude::*;

verus! {

/// One visited position of the search tree.
///
/// `visits` counts the passes that went through the node and `value` is the sum
/// of the rewards those passes left here, in units of [`UNIT`]. A reward is
/// booked from the point of view of the player who moved into the node, so a
/// parent prefers the child with the greatest mean.
#[derive(Clone)]
pub struct Node {
    parent: i32,
    state: GameState,
    hash: u64,
    actions: Vec<Edge>,
    value: i128,
    visits: u64,
}

/// A node as contracts see it.
pub struct NodeView {
    pub parent: i32,
    pub state: GameState,
    pub hash: u64,
    pub actions: Seq<Edge>,
    pub value: i128,
    pub visits: u64,
}

impl View for Node {
    type V = NodeView;

    closed spec fn view(&self) -> NodeView {
        NodeView {
            parent: self.parent,
            state: self.state,
            hash: self.hash,
            actions: self.actions@,
            value: self.value,
            visits: self.visits,
        }
    }
}

/// The edges of a node that has just been expanded: one for each move, in
/// order, with its prior and without a child.
pub open spec fn spec_edges(moves: Seq<u16>, policies: Seq<u16>) -> Seq<Edge> {
    Seq::new(moves.len(), |k: int| Edge::spec_new(-1i32, moves[k], policies[k]))
}

impl NodeView {
    /// No pass can have left more than one unit of reward, in either direction.
    pub open spec fn wf(self) -> bool {
        -(self.visits * UNIT) <= self.value <= self.visits * UNIT
    }

    /// The value per visit, rounded towards zero.
    pub open spec fn q(self) -> int {
        if self.value >= 0 {
            self.value as int / self.visits as int
        } else {
            -((-self.value) as int / self.visits as int)
        }
    }

    pub open spec fn is_not_expanded(self) -> bool {
        self.actions.len() == 0
    }

    pub open spec fn is_terminal(self) -> bool {
        self.state != GameState::Ongoing
    }
}

impl Node {
    pub open spec fn spec_parent(&self) -> i32 {
        self@.parent
    }

    pub open spec fn spec_game_state(&self) -> GameState {
        self@.state
    }

    pub open spec fn spec_hash(&self) -> u64 {
        self@.hash
    }

    pub open spec fn spec_value(&self) -> i128 {
        self@.value
    }

    pub open spec fn spec_visits(&self) -> u64 {
        self@.visits
    }

    pub open spec fn spec_is_not_expanded(&self) -> bool {
        self@.is_not_expanded()
    }

    pub open spec fn spec_is_terminal(&self) -> bool {
        self@.is_terminal()
    }

    /// A node without visits, value or edges.
    pub fn new(state: GameState, hash: u64, parent: i32) -> (node: Node)
        ensures
            node@ == (NodeView {
                parent,
                state,
                hash,
                actions: Seq::<Edge>::empty(),
                value: 0,
                visits: 0,
            }),
    {
        Node { parent, state, hash, actions: Vec::new(), value: 0, visits: 0 }
    }

    #[verifier::when_used_as_spec(spec_parent)]
    pub fn parent(&self) -> (parent: i32)
        ensures
            parent == self@.parent,
    {
        self.parent
    }

    #[verifier::when_used_as_spec(spec_game_state)]
    pub fn game_state(&self) -> (state: GameState)
        ensures
            state == self@.state,
    {
        self.state
    }

    /// Overwrites the state, as the search does once it has proven the node
    /// won or lost.
    pub fn set_game_state(&mut self, state: GameState)
        ensures
            final(self)@ == (NodeView { state, ..old(self)@ }),
    {
        self.state = state;
    }

    #[verifier::when_used_as_spec(spec_hash)]
    pub fn hash(&self) -> (hash: u64)
        ensures
            hash == self@.hash,
    {
        self.hash
    }

    pub fn actions_mut(&mut self) -> (actions: &mut Vec<Edge>)
        ensures
            actions@ == old(self)@.actions,
            final(self)@ == (NodeView { actions: final(actions)@, ..old(self)@ }),
    {
        &mut self.actions
    }

    pub fn actions(&self) -> (actions: &Vec<Edge>)
        ensures
            actions@ == self@.actions,
    {
        &self.actions
    }

    pub fn mut_edge(&mut self, index: usize) -> (edge: &mut Edge)
        requires
            index < old(self)@.actions.len(),
        ensures
            *edge == old(self)@.actions[index as int],
            final(self)@ == (NodeView {
                actions: old(self)@.actions.update(index as int, *final(edge)),
                ..old(self)@
            }),
    {
        &mut self.actions[index]
    }

    #[verifier::when_used_as_spec(spec_visits)]
    pub fn visits(&self) -> (visits: u64)
        ensures
            visits == self@.visits,
    {
        self.visits
    }

    #[verifier::when_used_as_spec(spec_value)]
    pub fn value(&self) -> (value: i128)
        ensures
            value == self@.value,
    {
        self.value
    }

    /// The sum of rewards under its older name.
    pub fn wins(&self) -> (wins: i128)
        ensures
            wins == self@.value,
    {
        self.value
    }

    /// Mean reward per visit in units of [`UNIT`], rounded towards zero.
    pub fn q(&self) -> (q: i32)
        requires
            self@.wf(),
            self@.visits > 0,
        ensures
            q == self@.q(),
            -UNIT <= q <= UNIT,
    {
        let n = self.visits as i128;
        proof {
            let v = self.value as int;
            let m = self.visits as int;
            let u = UNIT as int;
            if v >= 0 {
                assert(0 <= v / m <= u) by (nonlinear_arith)
                    requires
                        0 <= v <= m * u,
                        m > 0,
                ;
            } else {
                assert(0 <= (-v) / m <= u) by (nonlinear_arith)
                    requires
                        0 <= -v <= m * u,
                        m > 0,
                ;
            }
        }
        (self.value / n) as i32
    }

    /// Gives the node one edge per move, each with its prior and no child yet.
    pub fn expand_with(&mut self, moves: &[u16], policies: &[u16])
        requires
            old(self)@.is_not_expanded(),
            moves@.len() == policies@.len(),
        ensures
            final(self)@ == (NodeView { actions: spec_edges(moves@, policies@), ..old(self)@ }),
            final(self)@.actions.len() == moves@.len(),
            forall|k: int|
                0 <= k < moves@.len() ==> {
                    &&& (#[trigger] final(self)@.actions[k]).ptr() == -1
                    &&& final(self)@.actions[k].mov() == moves@[k]
                    &&& final(self)@.actions[k].policy() == policies@[k]
                },
    {
        let mut k: usize = 0;
        while k < moves.len()
            invariant
                k <= moves@.len(),
                moves@.len() == policies@.len(),
                self.actions@.len() == k,
                forall|j: int|
                    0 <= j < k ==> {
                        &&& (#[trigger] self.actions@[j]).ptr() == -1
                        &&& self.actions@[j].mov() == moves@[j]
                        &&& self.actions@[j].policy() == policies@[j]
                    },
                self@ == (NodeView { actions: self.actions@, ..old(self)@ }),
            decreases moves@.len() - k,
        {
            let mut edge = Edge::new(moves[k]);
            edge.set_policy(policies[k]);
            self.actions.push(edge);
            k = k + 1;
        }
        proof {
            assert forall|j: int| 0 <= j < moves@.len() implies self.actions@[j] == spec_edges(
                moves@,
                policies@,
            )[j] by {
                Edge::lemma_parts(self.actions@[j]);
            }
            assert(self.actions@ =~= spec_edges(moves@, policies@));
        }
    }

    /// Expands the node with the legal moves of `pos` and the priors that the
    /// position's own evaluation gives them.
    pub fn expand<G: Game>(&mut self, pos: &mut G)
        requires
            old(self)@.is_not_expanded(),
        ensures
            *final(pos) == *old(pos),
            final(self)@ == (NodeView {
                actions: spec_edges(
                    old(pos).spec_legal_moves(),
                    old(pos).spec_policy(old(pos).spec_legal_moves()),
                ),
                ..old(self)@
            }),
            final(self)@.actions.len() == old(pos).spec_legal_moves().len(),
            forall|k: int|
                0 <= k < old(pos).spec_legal_moves().len() ==> {
                    &&& (#[trigger] final(self)@.actions[k]).ptr() == -1
                    &&& final(self)@.actions[k].mov() == old(pos).spec_legal_moves()[k]
                    &&& final(self)@.actions[k].policy() == old(pos).spec_policy(
                        old(pos).spec_legal_moves(),
                    )[k]
                },
    {
        let moves = pos.get_legal_moves();
        let policies = pos.get_policy(moves.as_slice());
        self.expand_with(moves.as_slice(), policies.as_slice());
    }

    #[verifier::when_used_as_spec(spec_is_not_expanded)]
    pub fn is_not_expanded(&self) -> (empty: bool)
        ensures
            empty == self@.is_not_expanded(),
    {
        self.actions.is_empty()
    }

    #[verifier::when_used_as_spec(spec_is_terminal)]
    pub fn is_terminal(&self) -> (terminal: bool)
        ensures
            terminal == self@.is_terminal(),
    {
        self.state != GameState::Ongoing
    }

    /// Books one more pass through the node, and the reward it brought.
    pub fn propagate(&mut self, reward: i32)
        requires
            old(self)@.wf(),
            old(self)@.visits < u64::MAX,
            -UNIT <= reward <= UNIT,
        ensures
            final(self)@.wf(),
            final(self)@ == (NodeView {
                visits: (old(self)@.visits + 1) as u64,
                value: (old(self)@.value + reward) as i128,
                ..old(self)@
            }),
    {
        assert((self.visits + 1) * UNIT == self.visits * UNIT + UNIT) by (nonlinear_arith);
        self.visits = self.visits + 1;
        self.value = self.value + reward as i128;
    }
}

} // verus!
