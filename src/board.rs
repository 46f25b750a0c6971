//! A board: one bit set per player, plus its dimensions.
use vstd::prelude::*;
use crate::bitboard::{below, lemma_view_finite, lemma_view_in_range, Bitboard};
use crate::geometry::{
    column_cells, four_in_a_row, lemma_cell_bound, lemma_column_len, lemma_split, top_row,
    BoardGeometry,
};
use crate::player::Player;
use crate::position::Position;

verus! {

broadcast use lemma_view_in_range, lemma_view_finite;

/// Columns of the standard board.
pub const STANDARD_COLS: u8 = 7;

/// Rows of the standard board.
pub const STANDARD_ROWS: u8 = 6;

/// What a board holds: its size and the cells of each player, by index
/// `row * width + col`.
pub ghost struct BoardView {
    pub width: int,
    pub height: int,
    pub red: Set<int>,
    pub yellow: Set<int>,
}

impl BoardView {
    pub open spec fn area(self) -> int {
        self.width * self.height
    }

    /// The cells holding a piece of either player.
    pub open spec fn occupied(self) -> Set<int> {
        self.red.union(self.yellow)
    }

    /// The cells holding a piece of `p`.
    pub open spec fn stones(self, p: Player) -> Set<int> {
        match p {
            Player::Red => self.red,
            Player::Yellow => self.yellow,
        }
    }

    /// Sizes in range, pieces on the board, and no cell held by both players.
    pub open spec fn wf(self) -> bool {
        &&& 2 <= self.width <= 32
        &&& 2 <= self.height <= 32
        &&& self.red.subset_of(below(self.area()))
        &&& self.yellow.subset_of(below(self.area()))
        &&& self.red.disjoint(self.yellow)
    }

    /// The piece on cell `i`, if any.
    pub open spec fn piece_at(self, i: int) -> Option<Player> {
        if self.red.contains(i) {
            Some(Player::Red)
        } else if self.yellow.contains(i) {
            Some(Player::Yellow)
        } else {
            None
        }
    }

    /// The board with cell `i` holding `p` (or emptied, for `None`).
    pub open spec fn with_piece(self, i: int, p: Option<Player>) -> BoardView {
        BoardView {
            red: if p == Some(Player::Red) {
                self.red.insert(i)
            } else {
                self.red.remove(i)
            },
            yellow: if p == Some(Player::Yellow) {
                self.yellow.insert(i)
            } else {
                self.yellow.remove(i)
            },
            ..self
        }
    }

    /// The cells of column `c`.
    pub open spec fn column(self, c: int) -> Set<int> {
        column_cells(self.width, self.area(), c)
    }

    /// The number of pieces in column `c`.
    pub open spec fn column_height(self, c: int) -> nat {
        self.occupied().intersect(self.column(c)).len()
    }

    /// Column `c` is off the board or its top cell holds a piece.
    pub open spec fn column_full(self, c: int) -> bool {
        c >= self.width || self.occupied().contains((self.height - 1) * self.width + c)
    }

    /// Cell `i` is the lowest empty cell of column `c`.
    pub open spec fn is_lowest_empty(self, c: int, i: int) -> bool {
        &&& self.column(c).contains(i)
        &&& !self.occupied().contains(i)
        &&& forall|j: int| #[trigger] self.column(c).contains(j) && j < i ==> self.occupied().contains(j)
    }

    /// Every column has reached the top row.
    pub open spec fn board_full(self) -> bool {
        top_row(self.width, self.area()).subset_of(self.occupied())
    }

    /// `p` has four in a row.
    pub open spec fn has_won(self, p: Player) -> bool {
        four_in_a_row(self.stones(p), self.width)
    }
}

/// A `width × height` board with one bit set per player.
#[derive(Clone, Copy, Debug, PartialEq, Eq, Hash)]
pub struct Board<const NW: usize> {
    red: Bitboard<NW>,
    yellow: Bitboard<NW>,
    width: u8,
    height: u8,
}

impl<const NW: usize> View for Board<NW> {
    type V = BoardView;

    closed spec fn view(&self) -> BoardView {
        BoardView {
            width: self.width as int,
            height: self.height as int,
            red: self.red@,
            yellow: self.yellow@,
        }
    }
}

impl<const NW: usize> Board<NW> {
    /// The board is well formed and fits in `NW` words.
    pub open spec fn wf(&self) -> bool {
        &&& self@.wf()
        &&& self@.area() <= NW * 64
        &&& NW <= 16
    }

    /// `geo` describes a board of this size.
    pub open spec fn fits(&self, geo: &BoardGeometry<NW>) -> bool {
        &&& geo.wf()
        &&& geo.width as int == self@.width
        &&& geo.height as int == self@.height
    }

    /// An empty `width × height` board.
    pub fn new(width: u8, height: u8) -> (r: Self)
        requires
            2 <= width <= 32,
            2 <= height <= 32,
            width as int * height as int <= NW * 64,
            NW <= 16,
        ensures
            r.wf(),
            r@.width == width,
            r@.height == height,
            r@.red == Set::<int>::empty(),
            r@.yellow == Set::<int>::empty(),
    {
        Board { red: Bitboard::empty(), yellow: Bitboard::empty(), width, height }
    }

    pub fn width(&self) -> (r: u8)
        ensures
            r == self@.width,
    {
        self.width
    }

    pub fn height(&self) -> (r: u8)
        ensures
            r == self@.height,
    {
        self.height
    }

    proof fn lemma_index_in_range(&self, pos: Position)
        requires
            self.wf(),
            pos.col < self@.width,
            pos.row < self@.height,
        ensures
            0 <= pos.index_of(self@.width) < self@.area(),
            pos.index_of(self@.width) < NW * 64,
    {
        lemma_cell_bound(self@.width, self@.height, pos.row as int, pos.col as int);
    }

    /// The piece at `pos`; `None` for an empty cell or one off the board.
    pub fn get_piece(&self, pos: &Position) -> (r: Option<Player>)
        requires
            self.wf(),
        ensures
            r == if pos.col < self@.width && pos.row < self@.height {
                self@.piece_at(pos.index_of(self@.width))
            } else {
                None
            },
    {
        if pos.is_valid(self.width, self.height) {
            proof {
                self.lemma_index_in_range(*pos);
            }
            let idx = pos.to_index(self.width);
            if self.red.get(idx) {
                Some(Player::Red)
            } else if self.yellow.get(idx) {
                Some(Player::Yellow)
            } else {
                None
            }
        } else {
            None
        }
    }

    /// Put `player` on `pos` (or empty it, for `None`), ignoring gravity; a
    /// position off the board is ignored.
    pub fn set_piece(&mut self, pos: &Position, player: Option<Player>)
        requires
            old(self).wf(),
        ensures
            final(self).wf(),
            final(self)@ == if pos.col < old(self)@.width && pos.row < old(self)@.height {
                old(self)@.with_piece(pos.index_of(old(self)@.width), player)
            } else {
                old(self)@
            },
    {
        if pos.is_valid(self.width, self.height) {
            proof {
                self.lemma_index_in_range(*pos);
            }
            let idx = pos.to_index(self.width);
            self.red.clear(idx);
            self.yellow.clear(idx);
            match player {
                Some(Player::Red) => self.red.set(idx),
                Some(Player::Yellow) => self.yellow.set(idx),
                None => {},
            }
            proof {
                let v = old(self)@.with_piece(idx as int, player);
                assert(self@.red =~= v.red);
                assert(self@.yellow =~= v.yellow);
            }
        }
    }

    /// Remove every piece.
    pub fn clear(&mut self)
        requires
            old(self).wf(),
        ensures
            final(self).wf(),
            final(self)@ == (BoardView {
                red: Set::<int>::empty(),
                yellow: Set::<int>::empty(),
                ..old(self)@
            }),
    {
        self.red = Bitboard::empty();
        self.yellow = Bitboard::empty();
    }

    /// The cells of `player`.
    pub(crate) fn stones_for(&self, player: Player) -> (r: Bitboard<NW>)
        ensures
            r@ == self@.stones(player),
    {
        match player {
            Player::Red => self.red,
            Player::Yellow => self.yellow,
        }
    }

    /// The cells holding a piece.
    pub(crate) fn occupied(&self) -> (r: Bitboard<NW>)
        ensures
            r@ == self@.occupied(),
    {
        self.red.union(self.yellow)
    }

    /// Put `player` on the empty cell `idx`.
    pub(crate) fn set_bit(&mut self, idx: usize, player: Player)
        requires
            old(self).wf(),
            idx < old(self)@.area(),
            !old(self)@.occupied().contains(idx as int),
        ensures
            final(self).wf(),
            final(self)@ == old(self)@.with_piece(idx as int, Some(player)),
    {
        match player {
            Player::Red => self.red.set(idx),
            Player::Yellow => self.yellow.set(idx),
        }
        proof {
            let v = old(self)@.with_piece(idx as int, Some(player));
            assert(self@.red =~= v.red);
            assert(self@.yellow =~= v.yellow);
        }
    }

    /// Drop a piece of `player` into column `col`: it lands on the lowest
    /// empty cell of the column, whose row is returned. `None`, with the board
    /// unchanged, when the column is off the board or has no empty cell.
    pub fn drop_piece(&mut self, col: u8, player: Player, geo: &BoardGeometry<NW>) -> (r: Option<u8>)
        requires
            old(self).wf(),
            old(self).fits(geo),
        ensures
            final(self).wf(),
            r is None <==> (col >= old(self)@.width || old(self)@.column(col as int).subset_of(
                old(self)@.occupied(),
            )),
            r is None ==> final(self)@ == old(self)@,
            r matches Some(row) ==> {
                let i = row * old(self)@.width + col;
                &&& row < old(self)@.height
                &&& old(self)@.is_lowest_empty(col as int, i)
                &&& final(self)@ == old(self)@.with_piece(i, Some(player))
            },
    {
        let col_usize = col as usize;
        if col_usize >= self.width as usize {
            return None;
        }
        let occupied = self.occupied();
        let col_mask = geo.column_masks[col_usize];
        let empty_in_col = col_mask.andnot(occupied);
        match empty_in_col.lowest_bit_index() {
            Some(bit_idx) => {
                let ghost w = self@.width;
                let ghost h = self@.height;
                proof {
                    lemma_split(bit_idx as int, w);
                    if bit_idx as int / w >= h {
                        assert((bit_idx as int / w) * w >= h * w) by (nonlinear_arith)
                            requires
                                bit_idx as int / w >= h,
                                w > 0,
                        ;
                    }
                    assert forall|j: int| #[trigger]
                        self@.column(col as int).contains(j) && j < bit_idx implies self@.occupied().contains(
                            j,
                        ) by {
                        if !self@.occupied().contains(j) {
                            assert(empty_in_col@.contains(j));
                        }
                    }
                }
                let row = (bit_idx / self.width as usize) as u8;
                self.set_bit(bit_idx, player);
                Some(row)
            },
            None => {
                proof {
                    assert forall|j: int| self@.column(col as int).contains(j) implies self@.occupied().contains(
                        j,
                    ) by {
                        assert(!empty_in_col@.contains(j));
                    }
                }
                None
            },
        }
    }

    /// The number of pieces in column `col`; 0 for a column off the board.
    pub fn column_height(&self, col: u8, geo: &BoardGeometry<NW>) -> (r: u8)
        requires
            self.wf(),
            self.fits(geo),
        ensures
            r == if col < self@.width {
                self@.column_height(col as int)
            } else {
                0
            },
    {
        let col_usize = col as usize;
        if col_usize >= self.width as usize {
            return 0;
        }
        let in_col = self.occupied().intersect(geo.column_masks[col_usize]);
        proof {
            lemma_column_len(self@.width, self@.height, col as int);
            vstd::set_lib::lemma_len_subset(in_col@, self@.column(col as int));
        }
        in_col.count() as u8
    }

    /// Whether column `col` is off the board or its top cell holds a piece.
    pub fn is_column_full(&self, col: u8, geo: &BoardGeometry<NW>) -> (r: bool)
        requires
            self.wf(),
        ensures
            r == self@.column_full(col as int),
    {
        let col_usize = col as usize;
        if col_usize >= self.width as usize {
            return true;
        }
        let h = self.height as usize;
        let w = self.width as usize;
        proof {
            lemma_cell_bound(w as int, h as int, h - 1, col as int);
            assert(h as int * w as int == w as int * h as int) by (nonlinear_arith);
        }
        let top_idx = (h - 1) * w + col_usize;
        self.occupied().get(top_idx)
    }

    /// Whether every column has reached the top row.
    pub fn is_board_full(&self, geo: &BoardGeometry<NW>) -> (r: bool)
        requires
            self.wf(),
            self.fits(geo),
        ensures
            r == self@.board_full(),
    {
        let top_filled = self.occupied().intersect(geo.top_row_mask);
        let r = top_filled.same_bits(&geo.top_row_mask);
        proof {
            if self@.board_full() {
                assert(top_filled@ =~= geo.top_row_mask@);
            }
        }
        r
    }

    /// Whether `player` has four in a row.
    pub fn check_win(&self, player: Player, geo: &BoardGeometry<NW>) -> (r: bool)
        requires
            self.wf(),
            self.fits(geo),
        ensures
            r == self@.has_won(player),
    {
        geo.has_four_in_a_row(&self.stones_for(player))
    }
}

impl Default for Board<1> {
    /// The empty standard 7 × 6 board.
    fn default() -> (r: Self)
        ensures
            r.wf(),
            r@.width == STANDARD_COLS,
            r@.height == STANDARD_ROWS,
            r@.red == Set::<int>::empty(),
            r@.yellow == Set::<int>::empty(),
    {
        Self::new(STANDARD_COLS, STANDARD_ROWS)
    }
}

} // verus!
