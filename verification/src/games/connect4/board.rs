use vstd::prelude::*;
use vstd::string::*;

verus! {

/// The board of seven columns and six rows, packed into bits. Column `c`
/// owns bits `7 * c` to `7 * c + 6`, bottom cell first; the seventh bit of a
/// column stays clear. `mask` holds every disc and `current` those of the
/// side to move.
#[derive(Copy, Clone, PartialEq, Eq, Debug, Structural)]
pub struct Board {
    side_to_move: bool,
    current: u64,
    mask: u64,
}

impl Default for Board {
    fn default() -> (board: Self)
        ensures
            board == Board::empty(),
            board.side_to_move() == false,
            board.current() == 0,
            board.mask() == 0,
    {
        Board { side_to_move: false, current: 0, mask: 0 }
    }
}

impl Board {
    pub const WIDTH: usize = 7;

    pub const HEIGHT: usize = 6;

    /// The board without discs, the first player to move.
    pub closed spec fn empty() -> Board {
        Board { side_to_move: false, current: 0, mask: 0 }
    }

    pub closed spec fn spec_side_to_move(&self) -> bool {
        self.side_to_move
    }

    pub closed spec fn spec_current(&self) -> u64 {
        self.current
    }

    pub closed spec fn spec_mask(&self) -> u64 {
        self.mask
    }

    /// The empty board has no discs, and the first player is to move.
    pub proof fn lemma_empty()
        ensures
            Self::empty().side_to_move() == false,
            Self::empty().current() == 0,
            Self::empty().mask() == 0,
    {
    }

    /// The three components fix the board.
    pub proof fn lemma_ext(a: Board, b: Board)
        requires
            a.side_to_move() == b.side_to_move(),
            a.current() == b.current(),
            a.mask() == b.mask(),
        ensures
            a == b,
    {
    }

    /// The bit of the top cell of column `col`.
    pub open spec fn spec_top_mask(col: int) -> u64 {
        (1u64 << 5) << ((col * 7) as u64)
    }

    /// The bit of the bottom cell of column `col`.
    pub open spec fn spec_bottom_mask(col: int) -> u64 {
        1u64 << ((col * 7) as u64)
    }

    /// Column `col` exists and its top cell is free.
    pub open spec fn open(mask: u64, col: int) -> bool {
        0 <= col < 7 && mask & Self::spec_top_mask(col) == 0
    }

    /// The open columns among the first `k`, in order.
    pub open spec fn spec_moves(mask: u64, k: int) -> Seq<u16>
        decreases k,
    {
        if k <= 0 {
            Seq::empty()
        } else if Self::open(mask, k - 1) {
            Self::spec_moves(mask, k - 1).push((k - 1) as u16)
        } else {
            Self::spec_moves(mask, k - 1)
        }
    }

    /// A run of four discs of `pos` whose cells lie `step` bits apart.
    pub open spec fn four(pos: u64, step: u64) -> bool {
        let pairs = pos & (pos >> step);
        pairs & (pairs >> (2 * step) as u64) > 0
    }

    /// Four discs of `pos` in a row: along a row, a falling or a rising
    /// diagonal, or a column.
    pub open spec fn spec_alignment(pos: u64) -> bool {
        Self::four(pos, 7) || Self::four(pos, 6) || Self::four(pos, 8) || Self::four(pos, 1)
    }

    /// The board after a disc is dropped into `col`: the discs of the side
    /// that moved become the opponent's, and the lowest free cell of the
    /// column is taken.
    pub closed spec fn dropped(&self, col: int) -> Board {
        Board {
            side_to_move: !self.side_to_move,
            current: self.current ^ self.mask,
            mask: self.mask | ((self.mask + Self::spec_bottom_mask(col)) as u64),
        }
    }

    /// What [`Self::dropped`] is made of; a disc dropped into an open column
    /// adds to the discs on the board.
    pub proof fn lemma_dropped(&self, col: int)
        ensures
            self.dropped(col).side_to_move() == !self.side_to_move(),
            self.dropped(col).current() == self.current() ^ self.mask(),
            self.dropped(col).mask() == self.mask() | ((self.mask() + Self::spec_bottom_mask(
                col,
            )) as u64),
            Self::open(self.mask(), col) ==> self.dropped(col).mask() > self.mask(),
    {
        if Self::open(self.mask(), col) {
            let mask = self.mask;
            let shift = (col * 7) as u64;
            assert(mask | ((mask + (1u64 << shift)) as u64) > mask) by (bit_vector)
                requires
                    shift <= 42,
                    mask & ((1u64 << 5) << shift) == 0,
            ;
        }
    }

    /// The open columns are what [`Self::spec_moves`] lists.
    pub proof fn lemma_moves_open(mask: u64, k: int, col: u16)
        requires
            0 <= k <= 7,
        ensures
            Self::spec_moves(mask, k).contains(col) <==> col < k && Self::open(mask, col as int),
        decreases k,
    {
        if k > 0 {
            Self::lemma_moves_open(mask, k - 1, col);
            let rest = Self::spec_moves(mask, k - 1);
            if Self::open(mask, k - 1) {
                let all = rest.push((k - 1) as u16);
                if all.contains(col) {
                    let at = choose|at: int| 0 <= at < all.len() && all[at] == col;
                    if at < rest.len() {
                        assert(rest[at] == col);
                    }
                }
                if rest.contains(col) {
                    let at = choose|at: int| 0 <= at < rest.len() && rest[at] == col;
                    assert(all[at] == col);
                }
                if col == k - 1 {
                    assert(all[rest.len() as int] == col);
                }
            }
        }
    }

    /// Drops a disc of the side to move into column `col`, which has to be
    /// open.
    pub fn make_move(&mut self, col: u16)
        requires
            Self::open(old(self).mask(), col as int),
        ensures
            *final(self) == old(self).dropped(col as int),
    {
        let mask = self.mask;
        let shift = (col as u64) * 7;
        assert(mask + (1u64 << shift) <= u64::MAX) by (bit_vector)
            requires
                shift <= 42,
                mask & ((1u64 << 5) << shift) == 0,
        ;
        self.current = self.current ^ self.mask;
        self.mask = self.mask | (self.mask + Board::bottom_mask(col as usize));
        self.side_to_move = !self.side_to_move;
    }

    /// The open columns, lowest first.
    pub fn get_moves(&self) -> (moves: Vec<u16>)
        ensures
            moves@ == Self::spec_moves(self.mask(), 7),
    {
        let mut moves: Vec<u16> = Vec::new();
        let mut col: usize = 0;
        while col < Board::WIDTH
            invariant
                col <= 7,
                moves@ == Self::spec_moves(self.mask(), col as int),
            decreases 7 - col,
        {
            if (self.mask & Board::top_mask(col)) == 0 {
                moves.push(col as u16);
            }
            col = col + 1;
        }
        moves
    }

    #[verifier::when_used_as_spec(spec_side_to_move)]
    pub fn side_to_move(&self) -> (side: bool)
        ensures
            side == self.side_to_move(),
    {
        self.side_to_move
    }

    #[verifier::when_used_as_spec(spec_current)]
    pub fn current(&self) -> (current: u64)
        ensures
            current == self.current(),
    {
        self.current
    }

    #[verifier::when_used_as_spec(spec_mask)]
    pub fn mask(&self) -> (mask: u64)
        ensures
            mask == self.mask(),
    {
        self.mask
    }

    /// How the cell of bit `i` is drawn: the discs of the second player as
    /// `X`; those of the first as `O` when the first player is to move, and
    /// as `0` when the second is.
    pub open spec fn spec_cell(&self, i: int) -> Seq<char> {
        if (self.current() >> (i as u64)) & 1 != 0 {
            if self.side_to_move() {
                "| X "@
            } else {
                "| O "@
            }
        } else if ((self.current() ^ self.mask()) >> (i as u64)) & 1 != 0 {
            if self.side_to_move() {
                "| 0 "@
            } else {
                "| X "@
            }
        } else {
            "|   "@
        }
    }

    /// The rule above a row and the first `cols` cells of row `row`.
    pub open spec fn spec_row(&self, row: int, cols: int) -> Seq<char>
        decreases cols,
    {
        if cols <= 0 {
            "+---+---+---+---+---+---+---+\n"@
        } else {
            self.spec_row(row, cols - 1) + self.spec_cell(row + (cols - 1) * 7)
        }
    }

    /// The topmost `rows` rows of the board, each closed by a bar.
    pub open spec fn spec_rows(&self, rows: int) -> Seq<char>
        decreases rows,
    {
        if rows <= 0 {
            Seq::empty()
        } else {
            self.spec_rows(rows - 1) + self.spec_row(6 - rows, 7) + "|\n"@
        }
    }

    /// The drawing of the board: its six rows from the top, and a rule below
    /// them.
    pub open spec fn spec_display(&self) -> Seq<char> {
        self.spec_rows(6) + "+---+---+---+---+---+---+---+"@
    }

    /// Draws the board.
    pub fn display(&self) -> (text: String)
        ensures
            text@ == self.spec_display(),
    {
        let mut board = String::new();
        let mut done: usize = 0;
        while done < Board::HEIGHT
            invariant
                done <= 6,
                board@ == self.spec_rows(done as int),
            decreases 6 - done,
        {
            let row = Board::HEIGHT - 1 - done;
            let ghost before = board@;
            board.append("+---+---+---+---+---+---+---+\n");
            let mut col: usize = 0;
            while col < Board::WIDTH
                invariant
                    col <= 7,
                    row < 6,
                    board@ == before + self.spec_row(row as int, col as int),
                decreases 7 - col,
            {
                let i = (row + col * (Board::HEIGHT + 1)) as u64;
                let ghost so_far = board@;
                if ((self.current >> i) & 1) != 0 {
                    if self.side_to_move {
                        board.append("| X ");
                    } else {
                        board.append("| O ");
                    }
                } else if (((self.current ^ self.mask) >> i) & 1) != 0 {
                    if self.side_to_move {
                        board.append("| 0 ");
                    } else {
                        board.append("| X ");
                    }
                } else {
                    board.append("|   ");
                }
                proof {
                    assert(board@ == so_far + self.spec_cell(row + col * 7));
                    assert(board@ =~= before + (self.spec_row(row as int, col as int)
                        + self.spec_cell(row + col * 7)));
                }
                col = col + 1;
            }
            board.append("|\n");
            done = done + 1;
            proof {
                assert(board@ =~= self.spec_rows(done as int));
            }
        }
        board.append("+---+---+---+---+---+---+---+");
        board
    }

    /// Whether four discs of `pos` lie in a row.
    pub fn alignment(pos: u64) -> (aligned: bool)
        ensures
            aligned == Self::spec_alignment(pos),
    {
        let mut m = pos & (pos >> 7);
        if (m & (m >> 14)) > 0 {
            return true;
        }
        m = pos & (pos >> 6);
        if (m & (m >> 12)) > 0 {
            return true;
        }
        m = pos & (pos >> 8);
        if (m & (m >> 16)) > 0 {
            return true;
        }
        m = pos & (pos >> 1);
        if (m & (m >> 2)) > 0 {
            return true;
        }
        false
    }

    /// The bit of the top cell of column `col`.
    pub fn top_mask(col: usize) -> (mask: u64)
        requires
            col < 7,
        ensures
            mask == Self::spec_top_mask(col as int),
    {
        (1u64 << 5) << ((col * 7) as u64)
    }

    /// The bit of the bottom cell of column `col`.
    pub fn bottom_mask(col: usize) -> (mask: u64)
        requires
            col < 7,
        ensures
            mask == Self::spec_bottom_mask(col as int),
    {
        1u64 << ((col * 7) as u64)
    }
}

} // verus!
