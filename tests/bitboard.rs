use spooky_connect4::bitboard::{nw_for_board, Bitboard};
use spooky_connect4::geometry::BoardGeometry;

#[test]
fn test_empty() {
    let bb = Bitboard::<2>::empty();
    assert!(bb.is_empty());
    assert_eq!(bb.count(), 0);
    assert!(bb.lowest_bit_index().is_none());
}

#[test]
fn test_single() {
    let bb = Bitboard::<16>::single(0);
    assert!(bb.get(0));
    assert!(!bb.get(1));
    assert_eq!(bb.count(), 1);
    assert_eq!(bb.lowest_bit_index(), Some(0));

    let bb2 = Bitboard::<16>::single(63);
    assert!(bb2.get(63));
    assert!(!bb2.get(62));
    assert!(!bb2.get(64));

    let bb3 = Bitboard::<16>::single(64);
    assert!(bb3.get(64));
    assert!(!bb3.get(63));

    let bb4 = Bitboard::<16>::single(1023);
    assert!(bb4.get(1023));
    assert_eq!(bb4.count(), 1);
}

#[test]
fn test_set_clear() {
    let mut bb = Bitboard::<2>::empty();
    bb.set(100);
    assert!(bb.get(100));
    assert_eq!(bb.count(), 1);
    bb.clear(100);
    assert!(!bb.get(100));
    assert!(bb.is_empty());
}

#[test]
fn test_bitwise_ops() {
    let a = Bitboard::<1>::single(5) | Bitboard::<1>::single(10);
    let b = Bitboard::<1>::single(10) | Bitboard::<1>::single(20);

    let and = a & b;
    assert!(and.get(10));
    assert!(!and.get(5));
    assert!(!and.get(20));

    let or = a | b;
    assert!(or.get(5));
    assert!(or.get(10));
    assert!(or.get(20));
}

#[test]
fn test_shift_left() {
    let bb = Bitboard::<16>::single(0);
    let shifted = bb.shift_left(1);
    assert!(shifted.get(1));
    assert!(!shifted.get(0));

    // Across a word boundary: 63 -> 64.
    let bb2 = Bitboard::<16>::single(63);
    let shifted2 = bb2.shift_left(1);
    assert!(shifted2.get(64));
    assert!(!shifted2.get(63));

    // Across a word boundary: 127 -> 128.
    let bb3 = Bitboard::<16>::single(127);
    let shifted3 = bb3.shift_left(1);
    assert!(shifted3.get(128));
    assert!(!shifted3.get(127));
}

#[test]
fn test_shift_right() {
    let bb = Bitboard::<16>::single(1);
    let shifted = bb.shift_right(1);
    assert!(shifted.get(0));
    assert!(!shifted.get(1));

    // Across a word boundary: 64 -> 63.
    let bb2 = Bitboard::<16>::single(64);
    let shifted2 = bb2.shift_right(1);
    assert!(shifted2.get(63));
    assert!(!shifted2.get(64));

    // Below zero the bit is lost.
    let bb3 = Bitboard::<16>::single(0);
    let shifted3 = bb3.shift_right(1);
    assert!(shifted3.is_empty());
}

#[test]
fn test_shift_by_width() {
    // A row shift on a 9-wide board.
    let bb = Bitboard::<2>::single(4);
    let shifted = bb.shift_left(9);
    assert!(shifted.get(13));
    assert!(!shifted.get(4));
}

#[test]
fn test_iter_ones() {
    let bb = Bitboard::<4>::single(3) | Bitboard::<4>::single(64) | Bitboard::<4>::single(200);
    let indices: Vec<usize> = bb.iter_ones().collect();
    assert_eq!(indices, vec![3, 64, 200]);
}

#[test]
fn test_iter_ones_empty() {
    let bb = Bitboard::<2>::empty();
    let indices: Vec<usize> = bb.iter_ones().collect();
    assert!(indices.is_empty());
}

#[test]
fn test_not() {
    let bb = Bitboard::<1>::single(5);
    let notbb = !bb;
    assert!(!notbb.get(5));
    assert!(notbb.get(0));
    assert!(notbb.get(6));
}

#[test]
fn test_andnot() {
    let a = Bitboard::<1>::single(0) | Bitboard::single(5) | Bitboard::single(10);
    let b = Bitboard::<1>::single(5) | Bitboard::single(20);
    let result = a.andnot(b);
    assert!(result.get(0));
    assert!(!result.get(5));
    assert!(result.get(10));
    assert!(!result.get(20));
}

#[test]
fn test_assign_ops() {
    let mut bb = Bitboard::<1>::single(1);
    bb |= Bitboard::single(2);
    assert!(bb.get(1));
    assert!(bb.get(2));

    bb &= Bitboard::single(2);
    assert!(!bb.get(1));
    assert!(bb.get(2));
}

#[test]
fn test_nw_values() {
    assert_eq!(nw_for_board(2, 2), 1);
    assert_eq!(nw_for_board(5, 5), 1);
    assert_eq!(nw_for_board(7, 6), 1);
    assert_eq!(nw_for_board(8, 8), 1);
    assert_eq!(nw_for_board(9, 9), 2);
    assert_eq!(nw_for_board(19, 19), 6);
    assert_eq!(nw_for_board(32, 32), 16);
}

#[test]
fn test_geometry_7x6() {
    let geo = BoardGeometry::<1>::new(7, 6);
    assert_eq!(geo.area, 42u16);
    assert_eq!(geo.board_mask.count(), 42);

    for col in 0..7 {
        assert_eq!(geo.column_masks[col].count(), 6);
    }

    assert_eq!(geo.top_row_mask.count(), 7);
    assert_eq!(geo.bottom_row_mask.count(), 7);
}

#[test]
fn test_has_four_horizontal() {
    let geo = BoardGeometry::<1>::new(7, 6);
    let w = 7usize;

    let mut bb = Bitboard::empty();
    for col in 0..4 {
        bb.set(0 * w + col);
    }
    assert!(geo.has_four_in_a_row(&bb));

    let mut bb3 = Bitboard::empty();
    for col in 0..3 {
        bb3.set(0 * w + col);
    }
    assert!(!geo.has_four_in_a_row(&bb3));
}

#[test]
fn test_has_four_vertical() {
    let geo = BoardGeometry::<1>::new(7, 6);
    let w = 7usize;

    let mut bb = Bitboard::empty();
    for row in 0..4 {
        bb.set(row * w + 0);
    }
    assert!(geo.has_four_in_a_row(&bb));
}

#[test]
fn test_has_four_diagonal_ascending() {
    let geo = BoardGeometry::<1>::new(7, 6);
    let w = 7usize;

    let mut bb = Bitboard::empty();
    for i in 0..4 {
        bb.set(i * w + i);
    }
    assert!(geo.has_four_in_a_row(&bb));
}

#[test]
fn test_has_four_diagonal_descending() {
    let geo = BoardGeometry::<1>::new(7, 6);
    let w = 7usize;

    let mut bb = Bitboard::empty();
    for i in 0..4 {
        bb.set(i * w + (3 - i));
    }
    assert!(geo.has_four_in_a_row(&bb));
}

#[test]
fn test_no_wraparound_horizontal() {
    let geo = BoardGeometry::<1>::new(7, 6);
    let w = 7usize;

    // Columns 5 and 6 of row 0, then columns 0 and 1 of row 1.
    let mut bb = Bitboard::empty();
    bb.set(0 * w + 5);
    bb.set(0 * w + 6);
    bb.set(1 * w + 0);
    bb.set(1 * w + 1);
    assert!(!geo.has_four_in_a_row(&bb));
}

#[test]
fn test_no_wraparound_diagonal() {
    let geo = BoardGeometry::<1>::new(7, 6);
    let w = 7usize;

    // A rising diagonal that would wrap: (0,5), (1,6), (2,0), (3,1).
    let mut bb = Bitboard::empty();
    bb.set(0 * w + 5);
    bb.set(1 * w + 6);
    bb.set(2 * w + 0);
    bb.set(3 * w + 1);
    assert!(!geo.has_four_in_a_row(&bb));
}

#[test]
fn no_wraparound_falling_diagonal() {
    let geo = BoardGeometry::<1>::new(7, 6);
    let w = 7usize;

    // A falling diagonal that would wrap: (0,1), (1,0), (2,6), (3,5).
    let mut bb = Bitboard::empty();
    bb.set(0 * w + 1);
    bb.set(1 * w + 0);
    bb.set(2 * w + 6);
    bb.set(3 * w + 5);
    assert!(!geo.has_four_in_a_row(&bb));
}

#[test]
fn no_wraparound_nine_wide_two_words() {
    // 9 × 9 needs two words; the wrapping run crosses the word boundary.
    let geo = BoardGeometry::<2>::new(9, 9);
    let mut bb = Bitboard::empty();
    // Row 6 ends at index 62; row 7 starts at 63.
    bb.set(61);
    bb.set(62);
    bb.set(63);
    bb.set(64);
    assert!(!geo.has_four_in_a_row(&bb));
    // A true horizontal line across the word boundary: row 7, columns 0..4.
    let mut line = Bitboard::empty();
    for i in 63..67 {
        line.set(i);
    }
    assert!(geo.has_four_in_a_row(&line));
}

#[test]
fn shifts_across_several_words() {
    let bb = Bitboard::<3>::single(5) | Bitboard::<3>::single(70);
    let up = bb.shift_left(130);
    assert_eq!(up.iter_ones().collect(), vec![135]);
    let down = bb.shift_right(66);
    assert_eq!(down.iter_ones().collect(), vec![4]);
    assert!(bb.shift_left(192).is_empty());
    assert!(bb.shift_right(71).is_empty());
    assert_eq!(bb.shift_left(0), bb);
    assert_eq!(bb.shift_left(64).iter_ones().collect(), vec![69, 134]);
}

#[test]
fn count_and_lowest_bit() {
    let mut bb = Bitboard::<2>::empty();
    for i in [127usize, 3, 64, 65, 0] {
        bb.set(i);
    }
    assert_eq!(bb.count(), 5);
    assert_eq!(bb.lowest_bit_index(), Some(0));
    bb.clear(0);
    assert_eq!(bb.lowest_bit_index(), Some(3));
    assert!(bb.is_nonzero());
    let words = Bitboard::<2>::from_words([0, 0b1010]);
    assert_eq!(words.iter_ones().collect(), vec![65, 67]);
    assert_eq!(words.count(), 2);
}

#[test]
fn iterator_steps_in_order() {
    let bb = Bitboard::<2>::single(70) | Bitboard::<2>::single(2);
    let mut it = bb.iter_ones();
    assert_eq!(it.next(), Some(2));
    assert_eq!(it.next(), Some(70));
    assert_eq!(it.next(), None);
    assert_eq!(it.next(), None);
}

#[test]
fn neighbors_stay_in_rows() {
    let geo = BoardGeometry::<1>::new(4, 4);
    // Cell (col 3, row 0) has neighbours (2,0) and (3,1), not (0,1).
    let n = geo.neighbors(&Bitboard::single(3));
    assert_eq!(n.iter_ones().collect(), vec![2, 7]);
    // Cell (col 0, row 1): (0,0), (1,1), (0,2).
    let n2 = geo.neighbors(&Bitboard::single(4));
    assert_eq!(n2.iter_ones().collect(), vec![0, 5, 8]);
}

#[test]
fn flood_fill_follows_connected_cells() {
    let geo = BoardGeometry::<1>::new(4, 4);
    // Mask: column 0 fully, plus cell (3,3) apart from it.
    let mut mask = Bitboard::empty();
    for i in [0usize, 4, 8, 12, 15] {
        mask.set(i);
    }
    let filled = geo.flood_fill(Bitboard::single(0), mask);
    assert_eq!(filled.iter_ones().collect(), vec![0, 4, 8, 12]);
    // A seed outside the mask fills nothing.
    let none = geo.flood_fill(Bitboard::single(1), mask);
    assert!(none.is_empty());
    // Column 3 and the last cell of column 0 do not join through wrapping.
    let mut wrap = Bitboard::empty();
    wrap.set(3);
    wrap.set(4);
    let alone = geo.flood_fill(Bitboard::single(3), wrap);
    assert_eq!(alone.iter_ones().collect(), vec![3]);
}

#[test]
fn geometry_masks_for_five_by_three() {
    let geo = BoardGeometry::<1>::new(5, 3);
    assert_eq!(geo.not_col0.iter_ones().collect(), vec![1, 2, 3, 4, 6, 7, 8, 9, 11, 12, 13, 14]);
    assert_eq!(geo.not_col_last.iter_ones().collect(), vec![0, 1, 2, 3, 5, 6, 7, 8, 10, 11, 12, 13]);
    assert_eq!(geo.column_masks[2].iter_ones().collect(), vec![2, 7, 12]);
    assert!(geo.column_masks[5].is_empty());
    assert_eq!(geo.top_row_mask.iter_ones().collect(), vec![10, 11, 12, 13, 14]);
    assert_eq!(geo.bottom_row_mask.iter_ones().collect(), vec![0, 1, 2, 3, 4]);
}
