use crate::random::random_index;
use vstd::prelude::*;

verus! {

/// The integer that stands for `1.0` wherever a reward, a prior or an
/// exploration coefficient is stored.
pub const UNIT: i32 = 65_535;

/// Terminal classification of a position, always seen from the side to move:
/// `Win` says that the player about to move has already won.
#[derive(Clone, Copy, PartialEq, Eq, Debug, Default, Structural)]
pub enum GameState {
    #[default]
    Ongoing,
    Win,
    Draw,
    Loss,
}

impl GameState {
    /// The reward a decided position is worth to its side to move, in units of
    /// [`UNIT`]; an ongoing position is worth nothing by itself.
    pub open spec fn spec_utility(self) -> int {
        match self {
            GameState::Ongoing => 0,
            GameState::Win => UNIT as int,
            GameState::Draw => 0,
            GameState::Loss => -(UNIT as int),
        }
    }
}

/// What the search needs from a game position.
///
/// A position is a small value that is copied freely. Moves travel as their
/// sixteen-bit codes. Every executable method is tied to a `spec` function of
/// the same name, so that the search can reason about positions it has not
/// yet produced; `get_value` alone is left open, since an evaluation may be a
/// random playout.
pub trait Game: Copy {
    /// The position a game starts from.
    spec fn spec_default() -> Self;

    /// Index of the player about to move.
    spec fn spec_side_to_move(&self) -> usize;

    /// Terminal classification from the side to move's point of view.
    spec fn spec_game_state(&self) -> GameState;

    /// Identity summary of the position.
    spec fn spec_hash(&self) -> u64;

    /// Codes of the legal moves, in generation order.
    spec fn spec_legal_moves(&self) -> Seq<u16>;

    /// The position after playing `mov`.
    spec fn spec_make_move(&self, mov: u16) -> Self;

    /// An upper bound on the number of plies that can still be played.
    spec fn horizon(&self) -> nat;

    /// The position that `notation` describes, if it describes one.
    spec fn spec_from_notation(notation: Seq<char>) -> Option<Self>;

    /// The priors that the position's evaluation gives to `moves`, one for
    /// each, in units of [`UNIT`].
    spec fn spec_policy(&self, moves: Seq<u16>) -> Seq<u16>;

    /// A position has legal moves exactly while the game is ongoing.
    proof fn lemma_moves_iff_ongoing(&self)
        ensures
            self.spec_legal_moves().len() == 0 <==> self.spec_game_state() != GameState::Ongoing,
    ;

    /// Every legal move brings the end of the game strictly closer.
    proof fn lemma_horizon_decreases(&self, mov: u16)
        requires
            self.spec_legal_moves().contains(mov),
        ensures
            self.spec_make_move(mov).horizon() < self.horizon(),
    ;

    fn default() -> (pos: Self)
        ensures
            pos == Self::spec_default(),
    ;

    fn from_notation(notation: &str) -> (pos: Option<Self>)
        ensures
            pos == Self::spec_from_notation(notation@),
    ;

    fn side_to_move(&self) -> (side: usize)
        ensures
            side == self.spec_side_to_move(),
    ;

    fn game_state(&self) -> (state: GameState)
        ensures
            state == self.spec_game_state(),
    ;

    fn hash(&self) -> (hash: u64)
        ensures
            hash == self.spec_hash(),
    ;

    /// Evaluates the position for its side to move, in units of [`UNIT`].
    fn get_value(&mut self) -> (value: i32)
        ensures
            -UNIT <= value <= UNIT,
    ;

    /// One prior per move of `moves`, in units of [`UNIT`].
    fn get_policy(&mut self, moves: &[u16]) -> (policy: Vec<u16>)
        ensures
            policy@ == old(self).spec_policy(moves@),
            policy.len() == moves.len(),
            *final(self) == *old(self),
    ;

    fn make_move(&mut self, mov: u16)
        requires
            old(self).spec_legal_moves().contains(mov),
        ensures
            *final(self) == old(self).spec_make_move(mov),
    ;

    fn get_legal_moves(&self) -> (moves: Vec<u16>)
        ensures
            moves@ == self.spec_legal_moves(),
    ;

    /// Structural equality of two positions.
    fn equals(&self, other: &Self) -> (same: bool)
        ensures
            same == (*self == *other),
    ;
}

/// `to` follows from `from` by a legal move.
pub open spec fn follows<G: Game>(from: G, to: G) -> bool {
    exists|mov: u16| #[trigger] from.spec_legal_moves().contains(mov) && to == from.spec_make_move(mov)
}

/// `to` is reached from `from` by `plies` legal moves.
pub open spec fn reached<G: Game>(from: G, to: G, plies: nat) -> bool
    decreases plies,
{
    if plies == 0 {
        to == from
    } else {
        exists|mid: G| reached(from, mid, (plies - 1) as nat) && #[trigger] follows(mid, to)
    }
}

/// The side to move at `pos` can force a win within `depth` plies, where
/// `win` is set, or cannot avoid a loss within them, where it is not: a
/// position is won if it is decided so, or if some move leads to a position
/// that is lost for the opponent; it is lost if it is decided so, or if every
/// move leads to a position that is won for the opponent.
pub open spec fn forced<G: Game>(pos: G, depth: nat, win: bool) -> bool
    decreases depth,
{
    if win {
        pos.spec_game_state() == GameState::Win || (depth > 0 && pos.spec_game_state()
            == GameState::Ongoing && exists|mov: u16| #[trigger]
            pos.spec_legal_moves().contains(mov) && forced(
                pos.spec_make_move(mov),
                (depth - 1) as nat,
                false,
            ))
    } else {
        pos.spec_game_state() == GameState::Loss || (depth > 0 && pos.spec_game_state()
            == GameState::Ongoing && forall|mov: u16| #[trigger]
            pos.spec_legal_moves().contains(mov) ==> forced(
                pos.spec_make_move(mov),
                (depth - 1) as nat,
                true,
            ))
    }
}

/// What can be forced within some number of plies can be forced within any
/// greater number.
pub proof fn lemma_forced_deeper<G: Game>(pos: G, depth: nat, deeper: nat, win: bool)
    requires
        forced(pos, depth, win),
        depth <= deeper,
    ensures
        forced(pos, deeper, win),
    decreases depth,
{
    if win {
        if pos.spec_game_state() != GameState::Win {
            let mov = choose|mov: u16| #[trigger]
                pos.spec_legal_moves().contains(mov) && forced(
                    pos.spec_make_move(mov),
                    (depth - 1) as nat,
                    false,
                );
            lemma_forced_deeper(
                pos.spec_make_move(mov),
                (depth - 1) as nat,
                (deeper - 1) as nat,
                false,
            );
        }
    } else {
        if pos.spec_game_state() != GameState::Loss {
            assert forall|mov: u16| #[trigger] pos.spec_legal_moves().contains(mov) implies forced(
                pos.spec_make_move(mov),
                (deeper - 1) as nat,
                true,
            ) by {
                lemma_forced_deeper(
                    pos.spec_make_move(mov),
                    (depth - 1) as nat,
                    (deeper - 1) as nat,
                    true,
                );
            }
        }
    }
}

/// Plays random moves, each drawn evenly from the legal ones, until the game
/// is over, and returns the number of plies played; the count stops at the
/// greatest number it can hold.
pub fn playout<G: Game>(pos: &mut G) -> (plies: u32)
    ensures
        final(pos).spec_game_state() != GameState::Ongoing,
        old(pos).spec_game_state() != GameState::Ongoing ==> *final(pos) == *old(pos) && plies == 0,
        old(pos).spec_game_state() == GameState::Ongoing ==> plies > 0,
        plies == u32::MAX || final(pos).horizon() + plies <= old(pos).horizon(),
        plies < u32::MAX ==> reached(*old(pos), *final(pos), plies as nat),
{
    let mut plies: u32 = 0;
    while pos.game_state() == GameState::Ongoing
        invariant
            plies == 0 ==> *pos == *old(pos),
            old(pos).spec_game_state() == GameState::Ongoing || plies == 0,
            plies == u32::MAX || pos.horizon() + plies <= old(pos).horizon(),
            plies < u32::MAX ==> reached(*old(pos), *pos, plies as nat),
        decreases pos.horizon(),
    {
        let moves = pos.get_legal_moves();
        proof {
            pos.lemma_moves_iff_ongoing();
        }
        let pick = random_index(moves.len());
        let ghost from = *pos;
        proof {
            assert(moves@.contains(moves@[pick as int]));
            pos.lemma_horizon_decreases(moves@[pick as int]);
        }
        pos.make_move(moves[pick]);
        proof {
            assert(from.spec_legal_moves().contains(moves@[pick as int]) && *pos
                == from.spec_make_move(moves@[pick as int]));
            if plies < u32::MAX {
                assert(reached(*old(pos), from, ((plies + 1) - 1) as nat) && follows(from, *pos));
            }
        }
        if plies < u32::MAX {
            plies = plies + 1;
        }
    }
    plies
}

} // verus!
