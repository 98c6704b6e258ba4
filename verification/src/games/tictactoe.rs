use crate::game::{follows, reached, Game, GameState, UNIT};
use crate::protocol::contains;
use crate::random::random_index;
use vstd::prelude::*;
use vstd::string::*;

verus! {

/// Noughts and crosses on nine cells. `grid[p]` holds the cells of player `p`,
/// one bit per cell, and `side_to_move` says whether the second player moves.
#[derive(Clone, Copy, PartialEq, Eq, Debug)]
pub struct TicTacToe {
    pub side_to_move: bool,
    pub grid: [u16; 2],
}

/// A move: the bit of the cell that is taken.
#[derive(Clone, Copy, PartialEq, Eq, Debug)]
pub struct Move(pub u16);

impl From<u16> for Move {
    fn from(mov: u16) -> (m: Move)
        ensures
            m.0 == mov,
    {
        Move(mov)
    }
}

impl vstd::std_specs::convert::FromSpecImpl<u16> for Move {
    open spec fn obeys_from_spec() -> bool {
        true
    }

    open spec fn from_spec(mov: u16) -> Move {
        Move(mov)
    }
}

impl From<Move> for u16 {
    fn from(mov: Move) -> (code: u16)
        ensures
            code == mov.0,
    {
        mov.0
    }
}

impl vstd::std_specs::convert::FromSpecImpl<Move> for u16 {
    open spec fn obeys_from_spec() -> bool {
        true
    }

    open spec fn from_spec(mov: Move) -> u16 {
        mov.0
    }
}

impl Move {
    /// Column and row of the cell, each from zero to two, for a move that
    /// names one cell.
    pub fn cell(&self) -> (place: Option<(u16, u16)>)
        ensures
            match place {
                Some((column, row)) => column < 3 && row < 3 && self.0 == spec_cell(
                    column + 3 * row,
                ),
                None => forall|k: int| 0 <= k < 9 ==> self.0 != spec_cell(k),
            },
    {
        let mut k: u16 = 0;
        while k < 9
            invariant
                k <= 9,
                forall|j: int| 0 <= j < k ==> self.0 != spec_cell(j),
            decreases 9 - k,
        {
            if cell(k) == self.0 {
                return Some((k % 3, k / 3));
            }
            k = k + 1;
        }
        None
    }
}

/// The bit of cell `k`.
pub open spec fn spec_cell(k: int) -> u16 {
    if k == 0 {
        1
    } else if k == 1 {
        2
    } else if k == 2 {
        4
    } else if k == 3 {
        8
    } else if k == 4 {
        16
    } else if k == 5 {
        32
    } else if k == 6 {
        64
    } else if k == 7 {
        128
    } else {
        256
    }
}

/// The cells of winning line `k`.
pub open spec fn spec_line(k: int) -> u16 {
    if k == 0 {
        0b111_000_000
    } else if k == 1 {
        0b000_111_000
    } else if k == 2 {
        0b000_000_111
    } else if k == 3 {
        0b100_100_100
    } else if k == 4 {
        0b010_010_010
    } else if k == 5 {
        0b001_001_001
    } else if k == 6 {
        0b100_010_001
    } else {
        0b001_010_100
    }
}

fn cell(k: u16) -> (bit: u16)
    requires
        k < 9,
    ensures
        bit == spec_cell(k as int),
        bit != 0,
{
    if k == 0 {
        1
    } else if k == 1 {
        2
    } else if k == 2 {
        4
    } else if k == 3 {
        8
    } else if k == 4 {
        16
    } else if k == 5 {
        32
    } else if k == 6 {
        64
    } else if k == 7 {
        128
    } else {
        256
    }
}

fn line(k: usize) -> (cells: u16)
    requires
        k < 8,
    ensures
        cells == spec_line(k as int),
{
    if k == 0 {
        0b111_000_000
    } else if k == 1 {
        0b000_111_000
    } else if k == 2 {
        0b000_000_111
    } else if k == 3 {
        0b100_100_100
    } else if k == 4 {
        0b010_010_010
    } else if k == 5 {
        0b001_001_001
    } else if k == 6 {
        0b100_010_001
    } else {
        0b001_010_100
    }
}

/// What the lines from line `k` on decide, for the player who holds `own`
/// against the one who holds `other`: lines are tried in order, and on each
/// the opponent's claim is heard first.
pub open spec fn spec_lines(own: u16, other: u16, k: int) -> GameState
    decreases 8 - k,
{
    if k < 0 || k >= 8 {
        GameState::Ongoing
    } else if other & spec_line(k) == spec_line(k) {
        GameState::Loss
    } else if own & spec_line(k) == spec_line(k) {
        GameState::Win
    } else {
        spec_lines(own, other, k + 1)
    }
}

/// The free cells among the first `k`, lowest first.
pub open spec fn spec_free(occupied: u16, k: int) -> Seq<u16>
    decreases k,
{
    if k <= 0 {
        Seq::empty()
    } else if occupied & spec_cell(k - 1) == 0 {
        spec_free(occupied, k - 1).push(spec_cell(k - 1))
    } else {
        spec_free(occupied, k - 1)
    }
}

proof fn lemma_free_cells(occupied: u16, k: int, mov: u16)
    requires
        0 <= k <= 9,
        spec_free(occupied, k).contains(mov),
    ensures
        occupied & mov == 0,
        mov != 0,
    decreases k,
{
    if k > 0 {
        if occupied & spec_cell(k - 1) == 0 {
            let rest = spec_free(occupied, k - 1);
            let all = rest.push(spec_cell(k - 1));
            let at = choose|at: int| 0 <= at < all.len() && all[at] == mov;
            if at < rest.len() {
                assert(rest[at] == mov);
                lemma_free_cells(occupied, k - 1, mov);
            }
        } else {
            lemma_free_cells(occupied, k - 1, mov);
        }
    }
}

proof fn lemma_free_grows(occupied: u16, k: int)
    requires
        0 <= k,
    ensures
        spec_free(occupied, k).len() <= spec_free(occupied, k + 1).len(),
        occupied & spec_cell(k) == 0 ==> spec_free(occupied, k + 1).len() > 0,
{
}

proof fn lemma_some_cell_free(occupied: u16)
    requires
        occupied & 511 != 511,
    ensures
        spec_free(occupied, 9).len() > 0,
{
    assert(occupied & 1 == 0 || occupied & 2 == 0 || occupied & 4 == 0 || occupied & 8 == 0
        || occupied & 16 == 0 || occupied & 32 == 0 || occupied & 64 == 0 || occupied & 128 == 0
        || occupied & 256 == 0) by (bit_vector)
        requires
            occupied & 511 != 511,
    ;
    lemma_free_grows(occupied, 0);
    lemma_free_grows(occupied, 1);
    lemma_free_grows(occupied, 2);
    lemma_free_grows(occupied, 3);
    lemma_free_grows(occupied, 4);
    lemma_free_grows(occupied, 5);
    lemma_free_grows(occupied, 6);
    lemma_free_grows(occupied, 7);
    lemma_free_grows(occupied, 8);
}

proof fn lemma_taking_grows(grid: u16, other: u16, mov: u16)
    requires
        (grid | other) & mov == 0,
        mov != 0,
    ensures
        grid | mov > grid,
{
    assert(grid | mov > grid) by (bit_vector)
        requires
            (grid | other) & mov == 0,
            mov != 0,
    ;
}

impl TicTacToe {
    /// The cells of the side to move.
    pub open spec fn own(&self) -> u16 {
        if self.side_to_move {
            self.grid[1]
        } else {
            self.grid[0]
        }
    }

    /// The cells of the side that moved last.
    pub open spec fn other(&self) -> u16 {
        if self.side_to_move {
            self.grid[0]
        } else {
            self.grid[1]
        }
    }

    /// The cells that either side has taken.
    pub open spec fn occupied(&self) -> u16 {
        self.grid[0] | self.grid[1]
    }

    /// The crosses that are still to be drawn after the first `k` cells. A
    /// cell that both players hold is drawn as a nought, and its cross is
    /// kept for the next free cell.
    pub open spec fn spec_kept(&self, k: int) -> int
        decreases k,
    {
        if k <= 0 {
            0
        } else {
            let kept = self.spec_kept(k - 1);
            let cross = self.grid[0] & spec_cell(k - 1) != 0;
            let nought = self.grid[1] & spec_cell(k - 1) != 0;
            if cross && nought {
                kept + 1
            } else if !cross && !nought && kept > 0 {
                kept - 1
            } else {
                kept
            }
        }
    }

    /// How cell `k` is drawn: `O` for a cell of the second player, `X` for one
    /// of the first, and a dot for a free cell, unless a cross is kept for
    /// it, see [`Self::spec_kept`].
    pub open spec fn spec_mark(&self, k: int) -> Seq<char> {
        if self.grid[1] & spec_cell(k) != 0 {
            "O"@
        } else if self.grid[0] & spec_cell(k) != 0 || self.spec_kept(k) > 0 {
            "X"@
        } else {
            "."@
        }
    }

    /// The drawing of the first `k` cells: their marks in order, with a line
    /// break after every third.
    pub open spec fn spec_drawn(&self, k: int) -> Seq<char>
        decreases k,
    {
        if k <= 0 {
            Seq::empty()
        } else if k % 3 == 0 {
            self.spec_drawn(k - 1) + self.spec_mark(k - 1) + "\n"@
        } else {
            self.spec_drawn(k - 1) + self.spec_mark(k - 1)
        }
    }

    /// The drawing of the grid: three lines of three marks each.
    pub open spec fn spec_display(&self) -> Seq<char> {
        self.spec_drawn(9)
    }

    /// Where no cell is held by both players, no cross is ever kept: every
    /// cell is drawn as what it holds.
    pub proof fn lemma_none_kept(&self, k: int)
        requires
            self.grid[0] & self.grid[1] == 0,
            0 <= k <= 9,
        ensures
            self.spec_kept(k) == 0,
        decreases k,
    {
        if k > 0 {
            self.lemma_none_kept(k - 1);
            let first = self.grid[0];
            let second = self.grid[1];
            let bit = spec_cell(k - 1);
            assert(first & bit == 0 || second & bit == 0) by (bit_vector)
                requires
                    first & second == 0,
                    bit == 1 || bit == 2 || bit == 4 || bit == 8 || bit == 16 || bit == 32 || bit
                        == 64 || bit == 128 || bit == 256,
            ;
        }
    }

    /// Draws the grid.
    pub fn display(&self) -> (text: String)
        ensures
            text@ == self.spec_display(),
    {
        let mut text = String::new();
        let mut kept: u16 = 0;
        let mut k: u16 = 0;
        while k < 9
            invariant
                k <= 9,
                kept <= k,
                kept == self.spec_kept(k as int),
                text@ == self.spec_drawn(k as int),
            decreases 9 - k,
        {
            let bit = cell(k);
            let cross = self.grid[0] & bit != 0;
            let nought = self.grid[1] & bit != 0;
            if nought {
                text.append("O");
            } else if cross || kept > 0 {
                text.append("X");
            } else {
                text.append(".");
            }
            if cross && nought {
                kept = kept + 1;
            } else if !cross && !nought && kept > 0 {
                kept = kept - 1;
            }
            if (k + 1) % 3 == 0 {
                text.append("\n");
            }
            k = k + 1;
        }
        text
    }

    /// The position that is reached from `self` by the moves that
    /// `notation` lists from index `at` on, one digit from `0` to `8` for the
    /// cell of each move; none if a character is no such digit or its cell
    /// cannot be taken.
    pub open spec fn spec_played(self, notation: Seq<char>, at: int) -> Option<TicTacToe>
        decreases notation.len() - at,
    {
        if at < 0 || at >= notation.len() {
            Some(self)
        } else {
            let digit = notation[at] as int - 48;
            if 0 <= digit < 9 && self.spec_legal_moves().contains(spec_cell(digit)) {
                self.spec_make_move(spec_cell(digit)).spec_played(notation, at + 1)
            } else {
                None
            }
        }
    }

    /// What a finished playout is worth to the side that was to move at its
    /// start: half a unit for a draw; otherwise nothing where the same side is
    /// to move at the end, and a full unit where the other is.
    pub open spec fn spec_playout_value(outcome: GameState, same_side: bool) -> int {
        match outcome {
            GameState::Draw => UNIT / 2,
            _ => if same_side {
                0
            } else {
                UNIT as int
            },
        }
    }

    /// `value` is what some playout from this position is worth to the side
    /// to move: legal moves lead from here to a position at which the game
    /// is over, and `value` is the worth of that end.
    pub open spec fn spec_valued(self, value: int) -> bool {
        exists|end: TicTacToe, plies: nat| #[trigger]
            self.spec_reaches(end, plies) && end.spec_game_state() != GameState::Ongoing && value
                == Self::spec_playout_value(
                end.spec_game_state(),
                self.spec_side_to_move() == end.spec_side_to_move(),
            )
    }

    /// `to` follows from this position by a legal move.
    pub open spec fn spec_follows(self, to: TicTacToe) -> bool {
        exists|mov: u16| #[trigger]
            self.spec_legal_moves().contains(mov) && to == self.spec_make_move(mov)
    }

    /// `to` is reached from this position by `plies` legal moves; see
    /// [`lemma_reaches`].
    pub open spec fn spec_reaches(self, to: TicTacToe, plies: nat) -> bool
        decreases plies,
    {
        if plies == 0 {
            to == self
        } else {
            exists|mid: TicTacToe|
                self.spec_reaches(mid, (plies - 1) as nat) && #[trigger] mid.spec_follows(to)
        }
    }

    /// What a finished playout is worth to the side that was to move at its
    /// start, see [`TicTacToe::spec_playout_value`].
    pub fn playout_value(outcome: GameState, same_side: bool) -> (value: i32)
        ensures
            value == Self::spec_playout_value(outcome, same_side),
    {
        match outcome {
            GameState::Draw => UNIT / 2,
            _ => if same_side {
                0
            } else {
                UNIT
            },
        }
    }
}

/// What [`TicTacToe::spec_reaches`] says is what [`reached`] says of any
/// game.
pub proof fn lemma_reaches(from: TicTacToe, to: TicTacToe, plies: nat)
    ensures
        from.spec_reaches(to, plies) == reached(from, to, plies),
    decreases plies,
{
    if plies > 0 {
        if from.spec_reaches(to, plies) {
            let mid = choose|mid: TicTacToe|
                from.spec_reaches(mid, (plies - 1) as nat) && #[trigger] mid.spec_follows(to);
            lemma_reaches(from, mid, (plies - 1) as nat);
            assert(reached(from, mid, (plies - 1) as nat) && follows(mid, to));
        }
        if reached(from, to, plies) {
            let mid = choose|mid: TicTacToe|
                reached(from, mid, (plies - 1) as nat) && #[trigger] follows(mid, to);
            lemma_reaches(from, mid, (plies - 1) as nat);
            assert(from.spec_reaches(mid, (plies - 1) as nat) && mid.spec_follows(to));
        }
    }
}

impl Game for TicTacToe {
    /// The empty grid, the first player to move.
    open spec fn spec_default() -> Self {
        TicTacToe { side_to_move: false, grid: [0, 0] }
    }

    open spec fn spec_side_to_move(&self) -> usize {
        if self.side_to_move {
            1
        } else {
            0
        }
    }

    /// A complete line decides the game, see [`spec_lines`]; without one the
    /// game is drawn once no cell is free.
    open spec fn spec_game_state(&self) -> GameState {
        let lines = spec_lines(self.own(), self.other(), 0);
        if lines != GameState::Ongoing {
            lines
        } else if self.occupied() & 511 == 511 {
            GameState::Draw
        } else {
            GameState::Ongoing
        }
    }

    open spec fn spec_hash(&self) -> u64 {
        ((self.grid[0] as u64) << 9) | (self.grid[1] as u64)
    }

    open spec fn spec_legal_moves(&self) -> Seq<u16> {
        if self.spec_game_state() != GameState::Ongoing {
            Seq::empty()
        } else {
            spec_free(self.occupied(), 9)
        }
    }

    open spec fn spec_make_move(&self, mov: u16) -> Self {
        TicTacToe {
            side_to_move: !self.side_to_move,
            grid: if self.side_to_move {
                [self.grid[0], self.grid[1] | mov]
            } else {
                [self.grid[0] | mov, self.grid[1]]
            },
        }
    }

    open spec fn horizon(&self) -> nat {
        (2 * 65_535 - self.grid[0] - self.grid[1]) as nat
    }

    /// Every move is given the same prior.
    open spec fn spec_policy(&self, moves: Seq<u16>) -> Seq<u16> {
        Seq::new(moves.len(), |k: int| (65_535int / (moves.len() as int)) as u16)
    }

    /// A position is written as the moves that lead to it from the empty
    /// grid, see [`TicTacToe::spec_played`].
    open spec fn spec_from_notation(notation: Seq<char>) -> Option<Self> {
        Self::spec_default().spec_played(notation, 0)
    }

    proof fn lemma_moves_iff_ongoing(&self) {
        if self.spec_game_state() == GameState::Ongoing {
            lemma_some_cell_free(self.occupied());
        }
    }

    proof fn lemma_horizon_decreases(&self, mov: u16) {
        let first = self.grid[0];
        let second = self.grid[1];
        lemma_free_cells(self.occupied(), 9, mov);
        lemma_taking_grows(first, second, mov);
        assert((second | first) == (first | second)) by (bit_vector);
        lemma_taking_grows(second, first, mov);
    }

    fn default() -> Self {
        let pos = TicTacToe { side_to_move: false, grid: [0, 0] };
        proof {
            assert(pos.grid@ =~= Self::spec_default().grid@);
            assert(pos.grid == Self::spec_default().grid);
        }
        pos
    }

    fn from_notation(notation: &str) -> Option<Self> {
        let mut pos = TicTacToe::default();
        let ghost start = pos;
        let len = notation.unicode_len();
        let mut at: usize = 0;
        while at < len
            invariant
                len == notation@.len(),
                at <= len,
                start == Self::spec_default(),
                start.spec_played(notation@, 0) == pos.spec_played(notation@, at as int),
            decreases len - at,
        {
            let code = notation.get_char(at) as u32;
            proof {
                let digit = notation@[at as int] as int - 48;
                assert(code == notation@[at as int] as int);
                assert(pos.spec_played(notation@, at as int) == if 0 <= digit < 9
                    && pos.spec_legal_moves().contains(spec_cell(digit)) {
                    pos.spec_make_move(spec_cell(digit)).spec_played(notation@, at + 1)
                } else {
                    None
                });
            }
            if code < 48 || code > 56 {
                return None;
            }
            let bit = cell((code - 48) as u16);
            let moves = pos.get_legal_moves();
            if !contains(&moves, bit) {
                return None;
            }
            pos.make_move(bit);
            at = at + 1;
        }
        Some(pos)
    }

    fn side_to_move(&self) -> usize {
        if self.side_to_move {
            1
        } else {
            0
        }
    }

    fn game_state(&self) -> GameState {
        let side = self.side_to_move();
        let own = self.grid[side];
        let other = self.grid[1 - side];
        let mut k: usize = 0;
        while k < 8
            invariant
                k <= 8,
                own == self.own(),
                other == self.other(),
                spec_lines(own, other, 0) == spec_lines(own, other, k as int),
            decreases 8 - k,
        {
            let cells = line(k);
            if other & cells == cells {
                return GameState::Loss;
            }
            if own & cells == cells {
                return GameState::Win;
            }
            k = k + 1;
        }
        if (self.grid[0] | self.grid[1]) & 511 == 511 {
            return GameState::Draw;
        }
        GameState::Ongoing
    }

    fn hash(&self) -> u64 {
        ((self.grid[0] as u64) << 9) | (self.grid[1] as u64)
    }

    /// Plays random moves to the end of the game and values the outcome for
    /// the side to move, see [`TicTacToe::playout_value`].
    fn get_value(&mut self) -> (value: i32)
        ensures
            0 <= value <= UNIT,
            *final(self) == *old(self),
            old(self).spec_valued(value as int),
    {
        let mut pos = *self;
        let side = pos.side_to_move();
        let ghost mut plies: nat = 0;
        while pos.game_state() == GameState::Ongoing
            invariant
                self.spec_reaches(pos, plies),
            decreases pos.horizon(),
        {
            let moves = pos.get_legal_moves();
            proof {
                pos.lemma_moves_iff_ongoing();
            }
            let index = random_index(moves.len());
            let ghost from = pos;
            proof {
                assert(moves@.contains(moves@[index as int]));
                pos.lemma_horizon_decreases(moves@[index as int]);
            }
            pos.make_move(moves[index]);
            proof {
                assert(from.spec_legal_moves().contains(moves@[index as int]) && pos
                    == from.spec_make_move(moves@[index as int]));
                assert(self.spec_reaches(from, ((plies + 1) - 1) as nat) && from.spec_follows(
                    pos,
                ));
                plies = plies + 1;
            }
        }
        let value = TicTacToe::playout_value(pos.game_state(), side == pos.side_to_move());
        proof {
            assert(self.spec_reaches(pos, plies) && pos.spec_game_state() != GameState::Ongoing);
        }
        value
    }

    fn get_policy(&mut self, moves: &[u16]) -> (policy: Vec<u16>) {
        let mut policy: Vec<u16> = Vec::new();
        let count = moves.len();
        let mut k: usize = 0;
        while k < count
            invariant
                count == moves@.len(),
                k <= count,
                policy.len() == k,
                forall|j: int|
                    0 <= j < k ==> #[trigger] policy[j] == (65_535int / (count as int)) as u16,
            decreases count - k,
        {
            policy.push((65_535usize / count) as u16);
            k = k + 1;
        }
        proof {
            assert(policy@ =~= self.spec_policy(moves@));
        }
        policy
    }

    fn make_move(&mut self, mov: u16) {
        let side = self.side_to_move();
        self.grid[side] = self.grid[side] | mov;
        self.side_to_move = !self.side_to_move;
        proof {
            assert(self.grid@ =~= old(self).spec_make_move(mov).grid@);
            assert(self.grid == old(self).spec_make_move(mov).grid);
        }
    }

    fn get_legal_moves(&self) -> Vec<u16> {
        let mut moves: Vec<u16> = Vec::new();
        if self.game_state() != GameState::Ongoing {
            return moves;
        }
        let occupied = self.grid[0] | self.grid[1];
        let mut k: u16 = 0;
        while k < 9
            invariant
                k <= 9,
                occupied == self.occupied(),
                moves@ == spec_free(occupied, k as int),
            decreases 9 - k,
        {
            let bit = cell(k);
            if occupied & bit == 0 {
                moves.push(bit);
            }
            k = k + 1;
        }
        moves
    }

    fn equals(&self, other: &Self) -> bool {
        let same = self.side_to_move == other.side_to_move && self.grid[0] == other.grid[0]
            && self.grid[1] == other.grid[1];
        proof {
            if same {
                assert(self.grid@ =~= other.grid@);
                assert(self.grid == other.grid);
            }
        }
        same
    }
}

} // verus!
