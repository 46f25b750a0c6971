//! Precomputed masks for one board size, and the neighbour, flood-fill and
//! four-in-a-row queries built on them.
//!
//! Cells are laid out row by row: the cell in column `c` of row `r` has index
//! `r * width + c`, so its column is `index % width` and its row `index / width`.
use vstd::prelude::*;
use vstd::arithmetic::div_mod::{
    lemma_fundamental_div_mod, lemma_fundamental_div_mod_converse, lemma_mod_bound,
};
use crate::bitboard::{
    below, lemma_view_finite, lemma_view_in_range, shifted_up, words_for, Bitboard,
};

verus! {

broadcast use lemma_view_in_range, lemma_view_finite;

/// The cells of the board outside column `c`.
pub open spec fn off_column(w: int, area: int, c: int) -> Set<int> {
    Set::new(|i: int| 0 <= i < area && i % w != c)
}

/// The cells of column `c` (empty when `c >= w`).
pub open spec fn column_cells(w: int, area: int, c: int) -> Set<int> {
    Set::new(|i: int| 0 <= i < area && i % w == c)
}

/// The cells of the top row.
pub open spec fn top_row(w: int, area: int) -> Set<int> {
    Set::new(|i: int| area - w <= i < area)
}

/// Four indices `a, a + d, a + 2d, a + 3d` all in `s`.
pub open spec fn run_of_four(s: Set<int>, a: int, d: int) -> bool {
    &&& s.contains(a)
    &&& s.contains(a + d)
    &&& s.contains(a + 2 * d)
    &&& s.contains(a + 3 * d)
}

/// A line of four starting at cell `a` and going right along its row.
pub open spec fn horizontal_at(s: Set<int>, w: int, a: int) -> bool {
    0 <= a && a % w + 3 < w && run_of_four(s, a, 1)
}

/// A line of four starting at cell `a` and going up its column.
pub open spec fn vertical_at(s: Set<int>, w: int, a: int) -> bool {
    0 <= a && run_of_four(s, a, w)
}

/// A line of four starting at cell `a` and going up and to the right.
pub open spec fn rising_at(s: Set<int>, w: int, a: int) -> bool {
    0 <= a && a % w + 3 < w && run_of_four(s, a, w + 1)
}

/// A line of four starting at cell `a` and going up and to the left.
pub open spec fn falling_at(s: Set<int>, w: int, a: int) -> bool {
    0 <= a && a % w >= 3 && run_of_four(s, a, w - 1)
}

/// `s` holds four cells in a line: horizontally, vertically or diagonally,
/// with no line wrapping from one row into the next.
pub open spec fn four_in_a_row(s: Set<int>, w: int) -> bool {
    exists|a: int|
        horizontal_at(s, w, a) || vertical_at(s, w, a) || rising_at(s, w, a) || falling_at(
            s,
            w,
            a,
        )
}

/// The cells of the board next to a cell of `s` (left, right, below or above).
pub open spec fn neighbor_cells(s: Set<int>, w: int, area: int) -> Set<int> {
    Set::new(
        |i: int|
            0 <= i < area && ((s.contains(i - 1) && i % w != 0) || (s.contains(i + 1) && i % w != w
                - 1) || s.contains(i - w) || s.contains(i + w)),
    )
}

/// `t` contains `seed` and every cell of `mask` next to a cell of `t`.
pub open spec fn closed_from(t: Set<int>, seed: Set<int>, mask: Set<int>, w: int, area: int) -> bool {
    &&& seed.intersect(mask).subset_of(t)
    &&& neighbor_cells(t, w, area).intersect(mask).subset_of(t)
}

/// The cells of `mask` connected to `seed` through neighbouring cells of
/// `mask`: the least set closed under that step, and within `mask`.
pub open spec fn is_component(r: Set<int>, seed: Set<int>, mask: Set<int>, w: int, area: int) -> bool {
    &&& r.subset_of(mask)
    &&& closed_from(r, seed, mask, w, area)
    &&& forall|t: Set<int>| #[trigger] closed_from(t, seed, mask, w, area) ==> r.subset_of(t)
}

pub proof fn lemma_split(i: int, w: int)
    requires
        w > 0,
    ensures
        i == (i / w) * w + i % w,
        0 <= i % w < w,
{
    lemma_fundamental_div_mod(i, w);
    lemma_mod_bound(i, w);
    assert(w * (i / w) == (i / w) * w) by (nonlinear_arith);
}

pub proof fn lemma_cell(w: int, row: int, col: int)
    requires
        w > 0,
        0 <= col < w,
    ensures
        (row * w + col) / w == row,
        (row * w + col) % w == col,
{
    lemma_fundamental_div_mod_converse(row * w + col, w, row, col);
}

/// One index further, the column grows by one or wraps to zero.
pub proof fn lemma_next_col(a: int, w: int)
    requires
        w > 0,
    ensures
        (a + 1) % w == if a % w + 1 < w {
            a % w + 1
        } else {
            0
        },
{
    lemma_split(a, w);
    let r = a / w;
    let c = a % w;
    if c + 1 < w {
        lemma_cell(w, r, c + 1);
    } else {
        assert((r + 1) * w == r * w + w) by (nonlinear_arith);
        lemma_cell(w, r + 1, 0);
    }
}

/// One index back, the column drops by one or wraps to the last column.
pub proof fn lemma_prev_col(a: int, w: int)
    requires
        w > 0,
    ensures
        (a - 1) % w == if a % w >= 1 {
            a % w - 1
        } else {
            w - 1
        },
{
    lemma_split(a, w);
    let r = a / w;
    let c = a % w;
    if c >= 1 {
        lemma_cell(w, r, c - 1);
    } else {
        assert((r - 1) * w == r * w - w) by (nonlinear_arith);
        lemma_cell(w, r - 1, w - 1);
    }
}

/// One row further, the column is unchanged.
pub proof fn lemma_next_row(a: int, w: int)
    requires
        w > 0,
    ensures
        (a + w) % w == a % w,
{
    lemma_split(a, w);
    assert((a / w + 1) * w == (a / w) * w + w) by (nonlinear_arith);
    lemma_cell(w, a / w + 1, a % w);
}

pub proof fn lemma_cell_bound(w: int, h: int, row: int, col: int)
    requires
        0 <= row < h,
        0 <= col < w,
    ensures
        0 <= row * w + col < h * w,
        0 <= row * w,
{
    assert(0 <= row * w + col < h * w && 0 <= row * w) by (nonlinear_arith)
        requires
            0 <= row < h,
            0 <= col < w,
    ;
}

/// A column of a `w × h` board has `h` cells (none past the last column).
pub proof fn lemma_column_len(w: int, h: int, c: int)
    requires
        w > 0,
        h >= 0,
    ensures
        column_cells(w, w * h, c).finite(),
        column_cells(w, w * h, c).len() <= h,
        0 <= c < w ==> column_cells(w, w * h, c).len() == h,
{
    let x = vstd::set_lib::set_int_range(0, h);
    vstd::set_lib::lemma_int_range(0, h);
    let f = |r: int| r * w + c;
    let y = x.map(f);
    vstd::set_lib::lemma_map_size_bound(x, y, f);
    assert(h * w == w * h) by (nonlinear_arith);
    assert forall|i: int| column_cells(w, w * h, c).contains(i) implies y.contains(i) by {
        lemma_split(i, w);
        if i / w >= h {
            assert((i / w) * w >= h * w) by (nonlinear_arith)
                requires
                    i / w >= h,
                    w > 0,
            ;
        }
        if i / w < 0 {
            assert((i / w) * w <= -w) by (nonlinear_arith)
                requires
                    i / w < 0,
                    w > 0,
            ;
        }
        assert(x.contains(i / w));
        assert(f(i / w) == i);
    }
    vstd::set_lib::lemma_len_subset(column_cells(w, w * h, c), y);
    if 0 <= c < w {
        assert forall|i: int| y.contains(i) implies column_cells(w, w * h, c).contains(i) by {
            let r = choose|r: int| x.contains(r) && f(r) == i;
            lemma_cell(w, r, c);
            lemma_cell_bound(w, h, r, c);
        }
        assert(y =~= column_cells(w, w * h, c));
        assert forall|r1: int, r2: int| x.contains(r1) && x.contains(r2) && #[trigger] f(r1) == #[trigger] f(
            r2,
        ) implies r1 == r2 by {
            lemma_cell(w, r1, c);
            lemma_cell(w, r2, c);
        }
        vstd::set_lib::lemma_map_size(x, y, f);
    }
}

/// Three shift-and-mask steps of `d` keep the cells `g` with `g - d`,
/// `g - 2d` and `g - 3d` also in `bb`, and `g`, `g - d`, `g - 2d` in `m`.
proof fn lemma_chain(
    bb: Set<int>,
    m: Set<int>,
    d: int,
    cap: int,
    s1: Set<int>,
    s2: Set<int>,
    s3: Set<int>,
    h4: Set<int>,
)
    requires
        d >= 1,
        s1 == shifted_up(bb, d, cap).intersect(m),
        s2 == shifted_up(s1, d, cap).intersect(m),
        s3 == shifted_up(s2, d, cap).intersect(m),
        h4 == bb.intersect(s1).intersect(s2).intersect(s3),
    ensures
        forall|g: int| #[trigger]
            h4.contains(g) <==> (3 * d <= g < cap && run_of_four(bb, g - 3 * d, d) && m.contains(g)
                && m.contains(g - d) && m.contains(g - 2 * d)),
{
    assert forall|g: int| #[trigger]
        h4.contains(g) <==> (3 * d <= g < cap && run_of_four(bb, g - 3 * d, d) && m.contains(g)
            && m.contains(g - d) && m.contains(g - 2 * d)) by {
        assert(g - 3 * d + d == g - 2 * d);
        assert(g - 3 * d + 2 * d == g - d);
        assert(g - 3 * d + 3 * d == g);
        assert(g - d - d == g - 2 * d);
        assert(g - 2 * d - d == g - 3 * d);
    }
}

/// Three unmasked shift steps of `d` keep the cells `g` with `g - d`,
/// `g - 2d` and `g - 3d` also in `bb`.
proof fn lemma_chain_unmasked(
    bb: Set<int>,
    d: int,
    cap: int,
    s1: Set<int>,
    s2: Set<int>,
    s3: Set<int>,
    h4: Set<int>,
)
    requires
        d >= 1,
        s1 == shifted_up(bb, d, cap),
        s2 == shifted_up(s1, d, cap),
        s3 == shifted_up(s2, d, cap),
        h4 == bb.intersect(s1).intersect(s2).intersect(s3),
    ensures
        forall|g: int| #[trigger]
            h4.contains(g) <==> (3 * d <= g < cap && run_of_four(bb, g - 3 * d, d)),
{
    assert forall|g: int| #[trigger]
        h4.contains(g) <==> (3 * d <= g < cap && run_of_four(bb, g - 3 * d, d)) by {
        assert(g - 3 * d + d == g - 2 * d);
        assert(g - 3 * d + 2 * d == g - d);
        assert(g - 3 * d + 3 * d == g);
        assert(g - d - d == g - 2 * d);
        assert(g - 2 * d - d == g - 3 * d);
    }
}

proof fn lemma_nonempty<A>(s: Set<A>)
    requires
        s != Set::<A>::empty(),
    ensures
        exists|x: A| s.contains(x),
{
    if forall|x: A| !s.contains(x) {
        assert(s =~= Set::<A>::empty());
    }
}

proof fn lemma_horizontal(bb: Set<int>, w: int, area: int, cap: int, h4: Set<int>)
    requires
        w >= 2,
        area <= cap,
        bb.subset_of(below(area)),
        forall|g: int| #[trigger]
            h4.contains(g) <==> (3 <= g < cap && run_of_four(bb, g - 3, 1) && off_column(
                w,
                area,
                0,
            ).contains(g) && off_column(w, area, 0).contains(g - 1) && off_column(
                w,
                area,
                0,
            ).contains(g - 2)),
    ensures
        (h4 != Set::<int>::empty()) <==> exists|a: int| horizontal_at(bb, w, a),
{
    if h4 != Set::<int>::empty() {
        lemma_nonempty(h4);
        let g = choose|g: int| h4.contains(g);
        let a = g - 3;
        lemma_next_col(a, w);
        lemma_next_col(a + 1, w);
        lemma_next_col(a + 2, w);
        assert(horizontal_at(bb, w, a));
    }
    if exists|a: int| horizontal_at(bb, w, a) {
        let a = choose|a: int| horizontal_at(bb, w, a);
        lemma_next_col(a, w);
        lemma_next_col(a + 1, w);
        lemma_next_col(a + 2, w);
        assert(h4.contains(a + 3));
    }
}

proof fn lemma_vertical(bb: Set<int>, w: int, area: int, cap: int, h4: Set<int>)
    requires
        w >= 2,
        area <= cap,
        bb.subset_of(below(area)),
        forall|g: int| #[trigger]
            h4.contains(g) <==> (3 * w <= g < cap && run_of_four(bb, g - 3 * w, w)),
    ensures
        (h4 != Set::<int>::empty()) <==> exists|a: int| vertical_at(bb, w, a),
{
    if h4 != Set::<int>::empty() {
        lemma_nonempty(h4);
        let g = choose|g: int| h4.contains(g);
        assert(vertical_at(bb, w, g - 3 * w));
    }
    if exists|a: int| vertical_at(bb, w, a) {
        let a = choose|a: int| vertical_at(bb, w, a);
        assert(h4.contains(a + 3 * w));
    }
}

proof fn lemma_rising(bb: Set<int>, w: int, area: int, cap: int, h4: Set<int>)
    requires
        w >= 2,
        area <= cap,
        bb.subset_of(below(area)),
        forall|g: int| #[trigger]
            h4.contains(g) <==> (3 * (w + 1) <= g < cap && run_of_four(bb, g - 3 * (w + 1), w + 1)
                && off_column(w, area, 0).contains(g) && off_column(w, area, 0).contains(g - (w + 1))
                && off_column(w, area, 0).contains(g - 2 * (w + 1))),
    ensures
        (h4 != Set::<int>::empty()) <==> exists|a: int| rising_at(bb, w, a),
{
    let d = w + 1;
    if h4 != Set::<int>::empty() {
        lemma_nonempty(h4);
        let g = choose|g: int| h4.contains(g);
        let a = g - 3 * d;
        lemma_next_row(a + 1, w);
        lemma_next_col(a, w);
        lemma_next_row(a + d + 1, w);
        lemma_next_col(a + d, w);
        lemma_next_row(a + 2 * d + 1, w);
        lemma_next_col(a + 2 * d, w);
        assert(g - d == a + 2 * d);
        assert(g - 2 * d == a + d);
        assert(rising_at(bb, w, a));
    }
    if exists|a: int| rising_at(bb, w, a) {
        let a = choose|a: int| rising_at(bb, w, a);
        lemma_next_row(a + 1, w);
        lemma_next_col(a, w);
        lemma_next_row(a + d + 1, w);
        lemma_next_col(a + d, w);
        lemma_next_row(a + 2 * d + 1, w);
        lemma_next_col(a + 2 * d, w);
        let g = a + 3 * d;
        assert(g - d == a + 2 * d);
        assert(g - 2 * d == a + d);
        assert(h4.contains(g));
    }
}

proof fn lemma_falling(bb: Set<int>, w: int, area: int, cap: int, h4: Set<int>)
    requires
        w >= 2,
        area <= cap,
        bb.subset_of(below(area)),
        forall|g: int| #[trigger]
            h4.contains(g) <==> (3 * (w - 1) <= g < cap && run_of_four(bb, g - 3 * (w - 1), w - 1)
                && off_column(w, area, w - 1).contains(g) && off_column(w, area, w - 1).contains(g
                - (w - 1)) && off_column(w, area, w - 1).contains(g - 2 * (w - 1))),
    ensures
        (h4 != Set::<int>::empty()) <==> exists|a: int| falling_at(bb, w, a),
{
    let d = w - 1;
    if h4 != Set::<int>::empty() {
        lemma_nonempty(h4);
        let g = choose|g: int| h4.contains(g);
        let a = g - 3 * d;
        lemma_next_row(a - 1, w);
        lemma_prev_col(a, w);
        lemma_next_row(a + d - 1, w);
        lemma_prev_col(a + d, w);
        lemma_next_row(a + 2 * d - 1, w);
        lemma_prev_col(a + 2 * d, w);
        assert(g - d == a + 2 * d);
        assert(g - 2 * d == a + d);
        assert(falling_at(bb, w, a));
    }
    if exists|a: int| falling_at(bb, w, a) {
        let a = choose|a: int| falling_at(bb, w, a);
        lemma_next_row(a - 1, w);
        lemma_prev_col(a, w);
        lemma_next_row(a + d - 1, w);
        lemma_prev_col(a + d, w);
        lemma_next_row(a + 2 * d - 1, w);
        lemma_prev_col(a + 2 * d, w);
        let g = a + 3 * d;
        assert(g - d == a + 2 * d);
        assert(g - 2 * d == a + d);
        assert(h4.contains(g));
    }
}

/// The four cells `a, a + d, a + 2d, a + 3d`.
pub open spec fn four_cells(a: int, d: int) -> Set<int> {
    set![a, a + d, a + 2 * d, a + 3 * d]
}

/// A run of four inside four evenly spaced cells is those cells.
proof fn lemma_run_in_four_cells(a: int, d: int, b: int, e: int)
    requires
        d >= 1,
        e >= 1,
        run_of_four(four_cells(a, d), b, e),
    ensures
        b == a,
        e == d,
{
}

/// Four cells that run off the end of a row into the next one make no line:
/// neither the four next to each other by index, nor four that step one row
/// up and one column right, nor four that step one row up and one column left.
pub proof fn lemma_no_wraparound(w: int, a: int)
    requires
        w >= 2,
        a >= 0,
    ensures
        a % w + 3 >= w ==> !four_in_a_row(four_cells(a, 1), w),
        a % w + 3 >= w ==> !four_in_a_row(four_cells(a, w + 1), w),
        a % w < 3 ==> !four_in_a_row(four_cells(a, w - 1), w),
{
    if a % w + 3 >= w && four_in_a_row(four_cells(a, 1), w) {
        let s = four_cells(a, 1);
        let b = choose|b: int|
            horizontal_at(s, w, b) || vertical_at(s, w, b) || rising_at(s, w, b) || falling_at(s, w, b);
        if horizontal_at(s, w, b) {
            lemma_run_in_four_cells(a, 1, b, 1);
        } else if vertical_at(s, w, b) {
            lemma_run_in_four_cells(a, 1, b, w);
        } else if rising_at(s, w, b) {
            lemma_run_in_four_cells(a, 1, b, w + 1);
        } else {
            lemma_run_in_four_cells(a, 1, b, w - 1);
        }
    }
    if a % w + 3 >= w && four_in_a_row(four_cells(a, w + 1), w) {
        let s = four_cells(a, w + 1);
        let b = choose|b: int|
            horizontal_at(s, w, b) || vertical_at(s, w, b) || rising_at(s, w, b) || falling_at(s, w, b);
        if horizontal_at(s, w, b) {
            lemma_run_in_four_cells(a, w + 1, b, 1);
        } else if vertical_at(s, w, b) {
            lemma_run_in_four_cells(a, w + 1, b, w);
        } else if rising_at(s, w, b) {
            lemma_run_in_four_cells(a, w + 1, b, w + 1);
        } else {
            lemma_run_in_four_cells(a, w + 1, b, w - 1);
        }
    }
    if a % w < 3 && four_in_a_row(four_cells(a, w - 1), w) {
        let s = four_cells(a, w - 1);
        let b = choose|b: int|
            horizontal_at(s, w, b) || vertical_at(s, w, b) || rising_at(s, w, b) || falling_at(s, w, b);
        if horizontal_at(s, w, b) {
            lemma_run_in_four_cells(a, w - 1, b, 1);
        } else if vertical_at(s, w, b) {
            lemma_run_in_four_cells(a, w - 1, b, w);
        } else if rising_at(s, w, b) {
            lemma_run_in_four_cells(a, w - 1, b, w + 1);
        } else {
            lemma_run_in_four_cells(a, w - 1, b, w - 1);
        }
    }
}

/// Precomputed masks for a `width × height` board.
#[derive(Clone, Copy, Debug, PartialEq, Eq)]
pub struct BoardGeometry<const NW: usize> {
    pub width: u8,
    pub height: u8,
    pub area: u16,
    /// The cells of the board: indices `0..area`.
    pub board_mask: Bitboard<NW>,
    /// The board without column 0; applied after a shift toward higher
    /// indices to stop a bit wrapping from the last column into column 0.
    pub not_col0: Bitboard<NW>,
    /// The board without the last column; applied after a shift toward lower
    /// indices to stop a bit wrapping from column 0 into the last column.
    pub not_col_last: Bitboard<NW>,
    /// One mask per column; those at `width` and beyond are empty.
    pub column_masks: [Bitboard<NW>; 32],
    /// The cells of the top row.
    pub top_row_mask: Bitboard<NW>,
    /// The cells of the bottom row (row 0).
    pub bottom_row_mask: Bitboard<NW>,
}

impl<const NW: usize> BoardGeometry<NW> {
    /// The masks match the dimensions, and `NW` is the word count they need.
    pub open spec fn wf(&self) -> bool {
        let w = self.width as int;
        let h = self.height as int;
        let area = self.area as int;
        &&& 2 <= w <= 32
        &&& 2 <= h <= 32
        &&& area == w * h
        &&& NW == words_for(area)
        &&& self.board_mask@ == below(area)
        &&& self.not_col0@ == off_column(w, area, 0)
        &&& self.not_col_last@ == off_column(w, area, w - 1)
        &&& forall|c: int| 0 <= c < 32 ==> #[trigger] self.column_masks[c]@ == column_cells(w, area, c)
        &&& self.top_row_mask@ == top_row(w, area)
        &&& self.bottom_row_mask@ == below(w)
    }

    /// Build the masks for a `width × height` board.
    pub fn new(width: u8, height: u8) -> (r: Self)
        requires
            2 <= width <= 32,
            2 <= height <= 32,
            NW == words_for(width as int * height as int),
        ensures
            r.wf(),
            r.width == width,
            r.height == height,
    {
        let ghost wi = width as int;
        let ghost hi = height as int;
        proof {
            assert(wi * hi <= 1024) by (nonlinear_arith)
                requires
                    0 <= wi <= 32,
                    0 <= hi <= 32,
            ;
        }
        let area: u16 = width as u16 * height as u16;
        let w = width as usize;
        let h = height as usize;

        let mut board_mask = Bitboard::<NW>::empty();
        let mut i: usize = 0;
        while i < area as usize
            invariant
                i <= area,
                area as int == wi * hi,
                area <= NW * 64,
                board_mask@ == below(i as int),
            decreases area - i,
        {
            board_mask.set(i);
            i += 1;
            assert(board_mask@ =~= below(i as int));
        }

        let mut not_col0 = board_mask;
        let mut row: usize = 0;
        while row < h
            invariant
                row <= h,
                w == wi,
                h == hi,
                2 <= w <= 32,
                area as int == wi * hi,
                area <= NW * 64,
                not_col0@ == Set::new(
                    |i: int| 0 <= i < area && !(i % wi == 0 && i / wi < row),
                ),
            decreases h - row,
        {
            proof {
                lemma_cell_bound(wi, hi, row as int, 0);
                lemma_cell(wi, row as int, 0);
            }
            let ghost before = not_col0@;
            not_col0.clear(row * w);
            proof {
                assert forall|i: int| #[trigger] not_col0@.contains(i) == (0 <= i < area && !(i % wi
                    == 0 && i / wi < row + 1)) by {
                    lemma_split(i, wi);
                }
            }
            row += 1;
            assert(not_col0@ =~= Set::new(
                |i: int| 0 <= i < area && !(i % wi == 0 && i / wi < row),
            ));
        }
        proof {
            assert forall|i: int| #[trigger] not_col0@.contains(i) == off_column(wi, area as int, 0).contains(i) by {
                if 0 <= i < area {
                    lemma_split(i, wi);
                    if i / wi >= hi {
                        assert((i / wi) * wi >= hi * wi) by (nonlinear_arith)
                            requires
                                i / wi >= hi,
                                wi > 0,
                        ;
                    }
                }
            }
            assert(not_col0@ =~= off_column(wi, area as int, 0));
        }

        let mut not_col_last = board_mask;
        let mut row: usize = 0;
        while row < h
            invariant
                row <= h,
                w == wi,
                h == hi,
                2 <= w <= 32,
                area as int == wi * hi,
                area <= NW * 64,
                not_col_last@ == Set::new(
                    |i: int| 0 <= i < area && !(i % wi == wi - 1 && i / wi < row),
                ),
            decreases h - row,
        {
            proof {
                lemma_cell_bound(wi, hi, row as int, wi - 1);
                lemma_cell(wi, row as int, wi - 1);
            }
            not_col_last.clear(row * w + w - 1);
            proof {
                assert forall|i: int| #[trigger] not_col_last@.contains(i) == (0 <= i < area && !(i
                    % wi == wi - 1 && i / wi < row + 1)) by {
                    lemma_split(i, wi);
                }
            }
            row += 1;
            assert(not_col_last@ =~= Set::new(
                |i: int| 0 <= i < area && !(i % wi == wi - 1 && i / wi < row),
            ));
        }
        proof {
            assert forall|i: int| #[trigger] not_col_last@.contains(i) == off_column(
                wi,
                area as int,
                wi - 1,
            ).contains(i) by {
                if 0 <= i < area {
                    lemma_split(i, wi);
                    if i / wi >= hi {
                        assert((i / wi) * wi >= hi * wi) by (nonlinear_arith)
                            requires
                                i / wi >= hi,
                                wi > 0,
                        ;
                    }
                }
            }
            assert(not_col_last@ =~= off_column(wi, area as int, wi - 1));
        }

        let mut column_masks = [Bitboard::<NW>::empty();32];
        proof {
            assert forall|c: int| w <= c < 32 implies #[trigger] column_masks[c]@ == column_cells(
                wi,
                area as int,
                c,
            ) by {
                assert forall|i: int| !column_cells(wi, area as int, c).contains(i) by {
                    lemma_split(i, wi);
                }
                assert(column_cells(wi, area as int, c) =~= Set::<int>::empty());
            }
        }
        let mut col: usize = 0;
        while col < w
            invariant
                col <= w,
                w == wi,
                h == hi,
                2 <= w <= 32,
                area as int == wi * hi,
                area <= NW * 64,
                forall|c: int|
                    (0 <= c < col || w <= c < 32) ==> #[trigger] column_masks[c]@ == column_cells(
                        wi,
                        area as int,
                        c,
                    ),
            decreases w - col,
        {
            let mut mask = Bitboard::<NW>::empty();
            let mut row: usize = 0;
            while row < h
                invariant
                    row <= h,
                    col < w,
                    w == wi,
                    h == hi,
                    2 <= w <= 32,
                    area as int == wi * hi,
                    area <= NW * 64,
                    mask@ == Set::new(
                        |i: int| 0 <= i < area && i % wi == col && i / wi < row,
                    ),
                decreases h - row,
            {
                proof {
                    lemma_cell_bound(wi, hi, row as int, col as int);
                    lemma_cell(wi, row as int, col as int);
                }
                mask.set(row * w + col);
                proof {
                    assert forall|i: int| #[trigger] mask@.contains(i) == (0 <= i < area && i % wi
                        == col && i / wi < row + 1) by {
                        lemma_split(i, wi);
                    }
                }
                row += 1;
                assert(mask@ =~= Set::new(
                    |i: int| 0 <= i < area && i % wi == col && i / wi < row,
                ));
            }
            proof {
                assert forall|i: int| #[trigger] mask@.contains(i) == column_cells(
                    wi,
                    area as int,
                    col as int,
                ).contains(i) by {
                    if 0 <= i < area {
                        lemma_split(i, wi);
                        if i / wi >= hi {
                            assert((i / wi) * wi >= hi * wi) by (nonlinear_arith)
                                requires
                                    i / wi >= hi,
                                    wi > 0,
                            ;
                        }
                    }
                }
                assert(mask@ =~= column_cells(wi, area as int, col as int));
            }
            column_masks[col] = mask;
            col += 1;
        }

        let mut top_row_mask = Bitboard::<NW>::empty();
        let mut col: usize = 0;
        proof {
            assert((hi - 1) * wi + wi == hi * wi) by (nonlinear_arith);
        }
        while col < w
            invariant
                col <= w,
                w == wi,
                h == hi,
                2 <= w <= 32,
                2 <= h <= 32,
                area as int == wi * hi,
                (hi - 1) * wi + wi == area,
                area <= NW * 64,
                top_row_mask@ == Set::new(|i: int| (hi - 1) * wi <= i < (hi - 1) * wi + col),
            decreases w - col,
        {
            proof {
                lemma_cell_bound(wi, hi, hi - 1, col as int);
            }
            top_row_mask.set((h - 1) * w + col);
            col += 1;
            assert(top_row_mask@ =~= Set::new(
                |i: int| (hi - 1) * wi <= i < (hi - 1) * wi + col,
            ));
        }
        assert(top_row_mask@ =~= top_row(wi, area as int));

        let mut bottom_row_mask = Bitboard::<NW>::empty();
        let mut col: usize = 0;
        while col < w
            invariant
                col <= w,
                w == wi,
                2 <= w <= 32,
                area as int == wi * hi,
                area <= NW * 64,
                wi <= area,
                bottom_row_mask@ == below(col as int),
            decreases w - col,
        {
            bottom_row_mask.set(col);
            col += 1;
            assert(bottom_row_mask@ =~= below(col as int));
        }

        BoardGeometry {
            width,
            height,
            area,
            board_mask,
            not_col0,
            not_col_last,
            column_masks,
            top_row_mask,
            bottom_row_mask,
        }
    }
}

impl<const NW: usize> BoardGeometry<NW> {
    /// The board cells next to a cell of `bb`: left, right, below or above.
    pub fn neighbors(&self, bb: &Bitboard<NW>) -> (r: Bitboard<NW>)
        requires
            self.wf(),
        ensures
            r@ == neighbor_cells(bb@, self.width as int, self.area as int),
    {
        let w = self.width as usize;
        let right = bb.shift_left(1).intersect(self.not_col0);
        let left = bb.shift_right(1).intersect(self.not_col_last);
        let up = bb.shift_left(w);
        let down = bb.shift_right(w);
        let r = right.union(left).union(up).union(down).intersect(self.board_mask);
        assert(r@ =~= neighbor_cells(bb@, self.width as int, self.area as int));
        r
    }

    /// The cells of `mask` connected to `seed` through neighbouring cells of
    /// `mask`.
    pub fn flood_fill(&self, seed: Bitboard<NW>, mask: Bitboard<NW>) -> (r: Bitboard<NW>)
        requires
            self.wf(),
        ensures
            is_component(r@, seed@, mask@, self.width as int, self.area as int),
    {
        let ghost w = self.width as int;
        let ghost area = self.area as int;
        let mut filled = seed.intersect(mask);
        loop
            invariant
                self.wf(),
                w == self.width,
                area == self.area,
                filled@.subset_of(mask@),
                seed@.intersect(mask@).subset_of(filled@),
                forall|t: Set<int>| #[trigger]
                    closed_from(t, seed@, mask@, w, area) ==> filled@.subset_of(t),
            decreases mask@.len() - filled@.len(),
        {
            let nbrs = self.neighbors(&filled);
            let expanded = filled.union(nbrs).intersect(mask);
            if expanded.same_bits(&filled) {
                return filled;
            }
            proof {
                assert forall|t: Set<int>| #[trigger]
                    closed_from(t, seed@, mask@, w, area) implies expanded@.subset_of(t) by {
                    assert(filled@.subset_of(t));
                    assert forall|g: int| expanded@.contains(g) implies t.contains(g) by {
                        if !filled@.contains(g) {
                            assert(neighbor_cells(t, w, area).contains(g));
                        }
                    }
                }
                assert(filled@.subset_of(expanded@));
                if forall|g: int| expanded@.contains(g) ==> filled@.contains(g) {
                    assert(expanded@ =~= filled@);
                }
                let g = choose|g: int| expanded@.contains(g) && !filled@.contains(g);
                filled@.lemma_subset_not_in_lt(expanded@, g);
                vstd::set_lib::lemma_len_subset(expanded@, mask@);
            }
            filled = expanded;
        }
    }

    /// Whether `bb` holds four cells in a line, in any of the four directions.
    pub fn has_four_in_a_row(&self, bb: &Bitboard<NW>) -> (r: bool)
        requires
            self.wf(),
            bb@.subset_of(below(self.area as int)),
        ensures
            r == four_in_a_row(bb@, self.width as int),
    {
        let w = self.width as usize;
        let ghost wi = w as int;
        let ghost area = self.area as int;
        let ghost cap = NW * 64;
        proof {
            assert(area <= cap);
        }

        // Horizontal: col c moves to col c + 1; a bit leaving the last column
        // would land in column 0 of the next row, which the mask removes.
        let s1 = bb.shift_left(1).intersect(self.not_col0);
        let h2 = bb.intersect(s1);
        let s2 = s1.shift_left(1).intersect(self.not_col0);
        let h3 = h2.intersect(s2);
        let s3 = s2.shift_left(1).intersect(self.not_col0);
        let h4 = h3.intersect(s3);
        proof {
            lemma_chain(bb@, self.not_col0@, 1, cap, s1@, s2@, s3@, h4@);
            lemma_horizontal(bb@, wi, area, cap, h4@);
        }
        if h4.is_nonzero() {
            return true;
        }

        // Vertical: a whole row up; nothing can wrap.
        let s1 = bb.shift_left(w);
        let v2 = bb.intersect(s1);
        let s2 = s1.shift_left(w);
        let v3 = v2.intersect(s2);
        let s3 = s2.shift_left(w);
        let v4 = v3.intersect(s3);
        proof {
            lemma_chain_unmasked(bb@, wi, cap, s1@, s2@, s3@, v4@);
            lemma_vertical(bb@, wi, area, cap, v4@);
        }
        if v4.is_nonzero() {
            return true;
        }

        // Rising diagonal: one row up and one column right; the column step
        // can wrap into column 0.
        let s1 = bb.shift_left(w + 1).intersect(self.not_col0);
        let d2 = bb.intersect(s1);
        let s2 = s1.shift_left(w + 1).intersect(self.not_col0);
        let d3 = d2.intersect(s2);
        let s3 = s2.shift_left(w + 1).intersect(self.not_col0);
        let d4 = d3.intersect(s3);
        proof {
            lemma_chain(bb@, self.not_col0@, wi + 1, cap, s1@, s2@, s3@, d4@);
            lemma_rising(bb@, wi, area, cap, d4@);
        }
        if d4.is_nonzero() {
            return true;
        }

        // Falling diagonal: one row up and one column left; the column step
        // can wrap into the last column.
        let s1 = bb.shift_left(w - 1).intersect(self.not_col_last);
        let e2 = bb.intersect(s1);
        let s2 = s1.shift_left(w - 1).intersect(self.not_col_last);
        let e3 = e2.intersect(s2);
        let s3 = s2.shift_left(w - 1).intersect(self.not_col_last);
        let e4 = e3.intersect(s3);
        proof {
            lemma_chain(bb@, self.not_col_last@, wi - 1, cap, s1@, s2@, s3@, e4@);
            lemma_falling(bb@, wi, area, cap, e4@);
        }
        if e4.is_nonzero() {
            return true;
        }
        false
    }
}

} // verus!
