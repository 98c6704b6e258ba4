pub mod board;
pub mod moves;

use crate::game::{follows, reached, Game, GameState, UNIT};
use crate::protocol::contains;
use crate::random::random_index;
use crate::games::connect4::board::Board;
use vstd::prelude::*;
use vstd::string::*;

verus! {

/// Connect four as the search sees it.
#[derive(Clone, Copy, PartialEq, Eq, Debug, Structural)]
pub struct Connect4 {
    board: Board,
}

impl Connect4 {
    pub closed spec fn spec_board(&self) -> Board {
        self.board
    }


    /// The board of the position.
    pub fn board(&self) -> (board: Board)
        ensures
            board == self.spec_board(),
    {
        self.board
    }

    /// Two positions with the same board are the same position.
    pub proof fn lemma_same(first: Connect4, second: Connect4)
        requires
            first.spec_board() == second.spec_board(),
        ensures
            first == second,
    {
    }

    /// The state of the game on `board`: four in a row of the side that
    /// moved last is a loss for the side to move, four of its own a win;
    /// without either the game is drawn once no column is open.
    pub open spec fn spec_outcome(board: Board) -> GameState {
        if Board::spec_alignment(board.current() ^ board.mask()) {
            GameState::Loss
        } else if Board::spec_alignment(board.current()) {
            GameState::Win
        } else if Board::spec_moves(board.mask(), 7).len() == 0 {
            GameState::Draw
        } else {
            GameState::Ongoing
        }
    }

    /// The position that is reached from `self` by the moves that
    /// `notation` lists from index `at` on, one digit for the column of each
    /// move; none if a character is no digit or its column cannot be played.
    pub closed spec fn spec_played(self, notation: Seq<char>, at: int) -> Option<Connect4>
        decreases notation.len() - at,
    {
        if at < 0 || at >= notation.len() {
            Some(self)
        } else {
            let digit = notation[at] as int - 48;
            if 0 <= digit < 10 && self.spec_legal_moves().contains(digit as u16) {
                self.spec_make_move(digit as u16).spec_played(notation, at + 1)
            } else {
                None
            }
        }
    }

    /// The weight of a column in the priors: columns count for more the
    /// nearer they are to the middle. What is no column has no weight.
    pub open spec fn spec_weight(col: u16) -> u64 {
        if col == 0 || col == 6 {
            2_718
        } else if col == 1 || col == 5 {
            20_086
        } else if col == 2 || col == 4 {
            54_598
        } else if col == 3 {
            1_096_633
        } else {
            0
        }
    }

    /// The weights of the first `k` moves together.
    pub open spec fn spec_weights(moves: Seq<u16>, k: int) -> int
        decreases k,
    {
        if k <= 0 {
            0
        } else {
            Self::spec_weights(moves, k - 1) + Self::spec_weight(moves[k - 1])
        }
    }

    /// The prior of a move of the given weight among moves of the given
    /// weights in sum: its share, in units of [`UNIT`].
    pub open spec fn spec_share(weight: int, sum: int) -> int {
        if sum == 0 {
            0
        } else {
            weight * 65_535 / sum
        }
    }

    proof fn lemma_weights_bound(moves: Seq<u16>, k: int)
        requires
            0 <= k <= moves.len(),
        ensures
            0 <= Self::spec_weights(moves, k) <= k * 1_096_633,
            forall|j: int| 0 <= j < k ==> Self::spec_weight(#[trigger] moves[j]) <= Self::spec_weights(moves, k),
        decreases k,
    {
        if k > 0 {
            Self::lemma_weights_bound(moves, k - 1);
        }
    }

    fn weight(col: u16) -> (weight: u64)
        ensures
            weight == Self::spec_weight(col),
    {
        if col == 0 || col == 6 {
            2_718
        } else if col == 1 || col == 5 {
            20_086
        } else if col == 2 || col == 4 {
            54_598
        } else if col == 3 {
            1_096_633
        } else {
            0
        }
    }

    /// The reward of a playout that took `plies` moves: a full unit less a
    /// hundredth for every ply, and nothing from a hundred plies on.
    pub open spec fn spec_discount(plies: int) -> int {
        if plies >= 100 {
            0
        } else {
            65_535 - plies * 65_535 / 100
        }
    }

    /// What a finished playout of `plies` moves is worth to the side that was
    /// to move at its start: nothing for a draw; otherwise the discounted
    /// reward, to that side's debit where it is to move at the end, and to
    /// its credit where the other side is.
    pub open spec fn spec_playout_value(plies: int, outcome: GameState, same_side: bool) -> int {
        match outcome {
            GameState::Draw => 0,
            _ => if same_side {
                -Self::spec_discount(plies)
            } else {
                Self::spec_discount(plies)
            },
        }
    }

    /// `value` is what some playout from this position is worth to the side
    /// to move: legal moves lead from here to a position at which the game
    /// is over, and `value` is the worth of that end after that many plies.
    pub open spec fn spec_valued(self, value: int) -> bool {
        exists|end: Connect4, plies: nat| #[trigger]
            self.spec_reaches(end, plies) && end.spec_game_state() != GameState::Ongoing && value
                == Self::spec_playout_value(
                plies as int,
                end.spec_game_state(),
                self.spec_side_to_move() == end.spec_side_to_move(),
            )
    }

    /// `to` follows from this position by a legal move.
    pub open spec fn spec_follows(self, to: Connect4) -> bool {
        exists|mov: u16| #[trigger]
            self.spec_legal_moves().contains(mov) && to == self.spec_make_move(mov)
    }

    /// `to` is reached from this position by `plies` legal moves; see
    /// [`lemma_reaches`].
    pub open spec fn spec_reaches(self, to: Connect4, plies: nat) -> bool
        decreases plies,
    {
        if plies == 0 {
            to == self
        } else {
            exists|mid: Connect4|
                self.spec_reaches(mid, (plies - 1) as nat) && #[trigger] mid.spec_follows(to)
        }
    }

    /// What a finished playout of `plies` moves is worth to the side that was
    /// to move at its start, see [`Connect4::spec_playout_value`].
    pub fn playout_value(plies: u32, outcome: GameState, same_side: bool) -> (value: i32)
        ensures
            -UNIT <= value <= UNIT,
            value == Self::spec_playout_value(plies as int, outcome, same_side),
    {
        let counted: i32 = if plies >= 100 {
            100
        } else {
            plies as i32
        };
        let reward = UNIT - counted * UNIT / 100;
        match outcome {
            GameState::Draw => 0,
            _ => if same_side {
                -reward
            } else {
                reward
            },
        }
    }
}

/// What [`Connect4::spec_reaches`] says is what [`reached`] says of any
/// game.
pub proof fn lemma_reaches(from: Connect4, to: Connect4, plies: nat)
    ensures
        from.spec_reaches(to, plies) == reached(from, to, plies),
    decreases plies,
{
    if plies > 0 {
        if from.spec_reaches(to, plies) {
            let mid = choose|mid: Connect4|
                from.spec_reaches(mid, (plies - 1) as nat) && #[trigger] mid.spec_follows(to);
            lemma_reaches(from, mid, (plies - 1) as nat);
            assert(reached(from, mid, (plies - 1) as nat) && follows(mid, to));
        }
        if reached(from, to, plies) {
            let mid = choose|mid: Connect4|
                reached(from, mid, (plies - 1) as nat) && #[trigger] follows(mid, to);
            lemma_reaches(from, mid, (plies - 1) as nat);
            assert(from.spec_reaches(mid, (plies - 1) as nat) && mid.spec_follows(to));
        }
    }
}

/// What a position is to the search, in terms of its board: the side to
/// move, the state of the game, the hash, the legal moves, and the board after
/// a move. The game starts from the empty board.
pub proof fn lemma_board(pos: Connect4)
    ensures
        Connect4::spec_default().spec_board() == Board::empty(),
        pos.spec_side_to_move() == (if pos.spec_board().side_to_move() {
            1usize
        } else {
            0usize
        }),
        pos.spec_game_state() == Connect4::spec_outcome(pos.spec_board()),
        pos.spec_hash() == pos.spec_board().current().wrapping_add(pos.spec_board().mask()),
        pos.spec_legal_moves() == (if pos.spec_game_state() != GameState::Ongoing {
            Seq::<u16>::empty()
        } else {
            Board::spec_moves(pos.spec_board().mask(), 7)
        }),
        forall|mov: u16| (#[trigger] pos.spec_make_move(mov)).spec_board() == pos.spec_board().dropped(
            mov as int,
        ),
{
}

/// The bits of the empty board and of the bottom cell of a column.
proof fn lemma_empty_bits(shift: u64)
    by (bit_vector)
    requires
        shift <= 42,
    ensures
        0u64 & ((1u64 << 5) << shift) == 0,
        0u64 ^ 0u64 == 0,
        1u64 << shift != 0,
        0u64 | (1u64 << shift) == 1u64 << shift,
{
}

/// The first move of a game. On the empty board the game is open and every
/// column can be played. A disc dropped into column `col` leaves another
/// position, whose hash is the bit of the bottom cell of the column.
pub proof fn lemma_first_move(col: u16)
    requires
        col < 7,
    ensures
        Connect4::spec_default().spec_game_state() == GameState::Ongoing,
        Connect4::spec_default().spec_legal_moves().contains(col),
        Connect4::spec_default().spec_make_move(col) != Connect4::spec_default(),
        Connect4::spec_default().spec_make_move(col).spec_hash() == Board::spec_bottom_mask(
            col as int,
        ),
{
    let start = Connect4::spec_default();
    let next = start.spec_make_move(col);
    lemma_board(start);
    lemma_board(next);
    Board::lemma_empty();
    start.spec_board().lemma_dropped(col as int);
    Board::lemma_moves_open(0, 7, col);
    lemma_empty_bits((col * 7) as u64);
    assert(!Board::spec_alignment(0)) by (bit_vector);
    assert(Board::spec_moves(0, 7).len() > 0);
}

/// On the empty board the legal moves are the seven columns, in order.
pub proof fn lemma_start_moves()
    ensures
        Connect4::spec_default().spec_legal_moves() == seq![0u16, 1, 2, 3, 4, 5, 6],
{
    let start = Connect4::spec_default();
    lemma_board(start);
    lemma_first_move(0);
    Board::lemma_empty();
    assert forall|col: int| 0 <= col < 7 implies #[trigger] Board::open(0, col) by {
        lemma_empty_bits((col * 7) as u64);
    }
    reveal_with_fuel(Board::spec_moves, 8);
    assert(Board::spec_moves(0, 7) =~= seq![0u16, 1, 2, 3, 4, 5, 6]);
}

impl Game for Connect4 {
    /// The empty board, the first player to move.
    closed spec fn spec_default() -> Self {
        Connect4 { board: Board::empty() }
    }

    closed spec fn spec_side_to_move(&self) -> usize {
        if self.board.side_to_move() {
            1
        } else {
            0
        }
    }

    /// The state of the game on the board, see [`Connect4::spec_outcome`].
    closed spec fn spec_game_state(&self) -> GameState {
        Connect4::spec_outcome(self.board)
    }

    closed spec fn spec_hash(&self) -> u64 {
        self.board.current().wrapping_add(self.board.mask())
    }

    closed spec fn spec_legal_moves(&self) -> Seq<u16> {
        if self.spec_game_state() != GameState::Ongoing {
            Seq::empty()
        } else {
            Board::spec_moves(self.board.mask(), 7)
        }
    }

    closed spec fn spec_make_move(&self, mov: u16) -> Self {
        Connect4 { board: self.board.dropped(mov as int) }
    }

    closed spec fn horizon(&self) -> nat {
        (u64::MAX - self.board.mask()) as nat
    }

    /// Each move gets its share of the weights of all moves, see
    /// [`Connect4::spec_weight`] and [`Connect4::spec_share`].
    open spec fn spec_policy(&self, moves: Seq<u16>) -> Seq<u16> {
        Seq::new(
            moves.len(),
            |k: int|
                Connect4::spec_share(
                    Connect4::spec_weight(moves[k]) as int,
                    Connect4::spec_weights(moves, moves.len() as int),
                ) as u16,
        )
    }

    /// A position is written as the moves that lead to it from the empty
    /// board, see [`Connect4::spec_played`].
    closed spec fn spec_from_notation(notation: Seq<char>) -> Option<Self> {
        Self::spec_default().spec_played(notation, 0)
    }

    proof fn lemma_moves_iff_ongoing(&self) {
    }

    proof fn lemma_horizon_decreases(&self, mov: u16) {
        Board::lemma_moves_open(self.board.mask(), 7, mov);
        self.board.lemma_dropped(mov as int);
    }

    fn default() -> Self {
        Connect4 { board: Board::default() }
    }

    fn from_notation(notation: &str) -> Option<Self> {
        let mut pos = Connect4::default();
        let ghost start = pos;
        let len = notation.unicode_len();
        let mut at: usize = 0;
        while at < len
            invariant
                len == notation@.len(),
                at <= len,
                start == Self::spec_default(),
                start.spec_played(notation@, 0) == pos.spec_played(notation@, at as int),
            decreases len - at,
        {
            let code = notation.get_char(at) as u32;
            proof {
                let digit = notation@[at as int] as int - 48;
                assert(code == notation@[at as int] as int);
                assert(pos.spec_played(notation@, at as int) == if 0 <= digit < 10
                    && pos.spec_legal_moves().contains(digit as u16) {
                    pos.spec_make_move(digit as u16).spec_played(notation@, at + 1)
                } else {
                    None
                });
            }
            if code < 48 || code > 57 {
                return None;
            }
            let column = (code - 48) as u16;
            let moves = pos.get_legal_moves();
            if !contains(&moves, column) {
                return None;
            }
            pos.make_move(column);
            at = at + 1;
        }
        Some(pos)
    }

    fn side_to_move(&self) -> usize {
        if self.board.side_to_move() {
            1
        } else {
            0
        }
    }

    fn game_state(&self) -> GameState {
        if Board::alignment(self.board.current() ^ self.board.mask()) {
            return GameState::Loss;
        }
        if Board::alignment(self.board.current()) {
            return GameState::Win;
        }
        if self.board.get_moves().len() == 0 {
            return GameState::Draw;
        }
        GameState::Ongoing
    }

    fn hash(&self) -> u64 {
        self.board.current().wrapping_add(self.board.mask())
    }

    /// Plays random moves to the end of the game and values the outcome for
    /// the side to move, see [`Connect4::playout_value`].
    fn get_value(&mut self) -> (value: i32)
        ensures
            *final(self) == *old(self),
            old(self).spec_valued(value as int),
    {
        let mut pos = *self;
        let side = pos.side_to_move();
        let mut iterations: u32 = 0;
        let ghost mut plies: nat = 0;
        while pos.game_state() == GameState::Ongoing
            invariant
                self.spec_reaches(pos, plies),
                iterations == plies || (iterations == u32::MAX && plies > u32::MAX),
            decreases pos.horizon(),
        {
            let moves = pos.get_legal_moves();
            proof {
                pos.lemma_moves_iff_ongoing();
            }
            let index = random_index(moves.len());
            let ghost from = pos;
            proof {
                assert(moves@.contains(moves@[index as int]));
                pos.lemma_horizon_decreases(moves@[index as int]);
            }
            pos.make_move(moves[index]);
            if iterations < u32::MAX {
                iterations = iterations + 1;
            }
            proof {
                assert(from.spec_legal_moves().contains(moves@[index as int]) && pos
                    == from.spec_make_move(moves@[index as int]));
                assert(self.spec_reaches(from, ((plies + 1) - 1) as nat) && from.spec_follows(
                    pos,
                ));
                plies = plies + 1;
            }
        }
        let value = Connect4::playout_value(
            iterations,
            pos.game_state(),
            side == pos.side_to_move(),
        );
        proof {
            assert(Connect4::spec_discount(iterations as int) == Connect4::spec_discount(
                plies as int,
            ));
            assert(self.spec_reaches(pos, plies) && pos.spec_game_state() != GameState::Ongoing);
        }
        value
    }

    fn get_policy(&mut self, moves: &[u16]) -> (policy: Vec<u16>) {
        let count = moves.len();
        let mut sum: u128 = 0;
        let mut k: usize = 0;
        while k < count
            invariant
                count == moves@.len(),
                k <= count,
                sum == Connect4::spec_weights(moves@, k as int),
                sum <= k * 1_096_633,
            decreases count - k,
        {
            sum = sum + Connect4::weight(moves[k]) as u128;
            k = k + 1;
        }
        let mut policy: Vec<u16> = Vec::new();
        k = 0;
        while k < count
            invariant
                count == moves@.len(),
                k <= count,
                policy.len() == k,
                sum == Connect4::spec_weights(moves@, count as int),
                forall|j: int|
                    0 <= j < k ==> #[trigger] policy[j] == Connect4::spec_share(
                        Connect4::spec_weight(moves@[j]) as int,
                        sum as int,
                    ),
            decreases count - k,
        {
            let weight = Connect4::weight(moves[k]);
            proof {
                Connect4::lemma_weights_bound(moves@, count as int);
            }
            let share: u128 = if sum == 0 {
                0
            } else {
                assert((weight * 65_535) / (sum as int) <= 65_535) by (nonlinear_arith)
                    requires
                        0 <= weight <= sum,
                        sum > 0,
                ;
                (weight as u128) * 65_535 / sum
            };
            policy.push(share as u16);
            k = k + 1;
        }
        proof {
            assert(policy@ =~= self.spec_policy(moves@));
        }
        policy
    }

    fn make_move(&mut self, mov: u16) {
        proof {
            Board::lemma_moves_open(self.board.mask(), 7, mov);
        }
        self.board.make_move(mov);
    }

    fn get_legal_moves(&self) -> Vec<u16> {
        if self.game_state() != GameState::Ongoing {
            return Vec::new();
        }
        self.board.get_moves()
    }

    fn equals(&self, other: &Self) -> bool {
        let same = self.board.side_to_move() == other.board.side_to_move() && self.board.current()
            == other.board.current() && self.board.mask() == other.board.mask();
        proof {
            if same {
                Board::lemma_ext(self.board, other.board);
            }
        }
        same
    }
}

} // verus!
