use spooky_connect4::board::{Board, STANDARD_COLS, STANDARD_ROWS};
use spooky_connect4::geometry::BoardGeometry;
use spooky_connect4::player::Player;
use spooky_connect4::position::Position;

fn make_geo() -> BoardGeometry<1> {
    BoardGeometry::new(STANDARD_COLS, STANDARD_ROWS)
}

#[test]
fn test_empty_board_creation() {
    let geo = make_geo();
    let board = Board::<1>::new(STANDARD_COLS, STANDARD_ROWS);
    assert!(!board.is_board_full(&geo));
    for col in 0..STANDARD_COLS {
        assert_eq!(board.column_height(col, &geo), 0);
        assert!(!board.is_column_full(col, &geo));
    }
}

#[test]
fn test_empty_board_creation_10x10() {
    let geo = BoardGeometry::<2>::new(10, 10);
    let board = Board::<2>::new(10, 10);
    assert!(!board.is_board_full(&geo));
    for col in 0..10 {
        assert_eq!(board.column_height(col, &geo), 0);
        assert!(!board.is_column_full(col, &geo));
    }
}

#[test]
fn test_drop_piece() {
    let geo = make_geo();
    let mut board = Board::<1>::new(STANDARD_COLS, STANDARD_ROWS);
    let row = board.drop_piece(0, Player::Red, &geo);
    assert_eq!(row, Some(0));

    let pos = Position::new(0, 0);
    assert_eq!(board.get_piece(&pos), Some(Player::Red));
}

#[test]
fn test_drop_multiple_pieces() {
    let geo = make_geo();
    let mut board = Board::<1>::new(STANDARD_COLS, STANDARD_ROWS);

    assert_eq!(board.drop_piece(0, Player::Red, &geo), Some(0));
    assert_eq!(board.drop_piece(0, Player::Yellow, &geo), Some(1));
    assert_eq!(board.drop_piece(0, Player::Red, &geo), Some(2));

    assert_eq!(board.column_height(0, &geo), 3);
}

#[test]
fn test_column_full() {
    let geo = make_geo();
    let mut board = Board::<1>::new(STANDARD_COLS, STANDARD_ROWS);

    for _ in 0..STANDARD_ROWS {
        board.drop_piece(0, Player::Red, &geo);
    }

    assert!(board.is_column_full(0, &geo));
    assert_eq!(board.drop_piece(0, Player::Red, &geo), None);
}

#[test]
fn test_board_full() {
    let geo = make_geo();
    let mut board = Board::<1>::new(STANDARD_COLS, STANDARD_ROWS);

    for col in 0..STANDARD_COLS {
        for _ in 0..STANDARD_ROWS {
            board.drop_piece(col, Player::Red, &geo);
        }
    }

    assert!(board.is_board_full(&geo));
}

#[test]
fn board_test_horizontal_win() {
    let geo = make_geo();
    let mut board = Board::<1>::new(STANDARD_COLS, STANDARD_ROWS);

    for col in 0..4 {
        board.drop_piece(col, Player::Red, &geo);
    }

    assert!(board.check_win(Player::Red, &geo));
}

#[test]
fn board_test_vertical_win() {
    let geo = make_geo();
    let mut board = Board::<1>::new(STANDARD_COLS, STANDARD_ROWS);

    for _ in 0..4 {
        board.drop_piece(0, Player::Red, &geo);
    }

    assert!(board.check_win(Player::Red, &geo));
}

#[test]
fn test_diagonal_win_ascending() {
    let geo = make_geo();
    let mut board = Board::<1>::new(STANDARD_COLS, STANDARD_ROWS);

    board.drop_piece(0, Player::Red, &geo);
    board.drop_piece(1, Player::Yellow, &geo);
    board.drop_piece(1, Player::Red, &geo);
    board.drop_piece(2, Player::Yellow, &geo);
    board.drop_piece(2, Player::Yellow, &geo);
    board.drop_piece(2, Player::Red, &geo);
    board.drop_piece(3, Player::Yellow, &geo);
    board.drop_piece(3, Player::Yellow, &geo);
    board.drop_piece(3, Player::Yellow, &geo);
    board.drop_piece(3, Player::Red, &geo);

    assert!(board.check_win(Player::Red, &geo));
}

#[test]
fn test_diagonal_win_descending() {
    let geo = make_geo();
    let mut board = Board::<1>::new(STANDARD_COLS, STANDARD_ROWS);

    board.drop_piece(0, Player::Yellow, &geo);
    board.drop_piece(0, Player::Yellow, &geo);
    board.drop_piece(0, Player::Yellow, &geo);
    board.drop_piece(0, Player::Red, &geo);
    board.drop_piece(1, Player::Yellow, &geo);
    board.drop_piece(1, Player::Yellow, &geo);
    board.drop_piece(1, Player::Red, &geo);
    board.drop_piece(2, Player::Yellow, &geo);
    board.drop_piece(2, Player::Red, &geo);
    board.drop_piece(3, Player::Red, &geo);

    assert!(board.check_win(Player::Red, &geo));
}

#[test]
fn test_no_win() {
    let geo = make_geo();
    let mut board = Board::<1>::new(STANDARD_COLS, STANDARD_ROWS);

    for col in 0..3 {
        board.drop_piece(col, Player::Red, &geo);
    }

    assert!(!board.check_win(Player::Red, &geo));
}

#[test]
fn test_get_set() {
    let mut board = Board::<1>::new(STANDARD_COLS, STANDARD_ROWS);
    let pos = Position::new(3, 2);

    assert_eq!(board.get_piece(&pos), None);

    board.set_piece(&pos, Some(Player::Red));
    assert_eq!(board.get_piece(&pos), Some(Player::Red));

    board.set_piece(&pos, None);
    assert_eq!(board.get_piece(&pos), None);
}

#[test]
fn test_out_of_bounds() {
    let mut board = Board::<1>::new(STANDARD_COLS, STANDARD_ROWS);

    let pos = Position::new(10, 10);
    assert_eq!(board.get_piece(&pos), None);

    board.set_piece(&pos, Some(Player::Red));
    assert_eq!(board.get_piece(&pos), None);
}

#[test]
fn test_invalid_column() {
    let geo = make_geo();
    let mut board = Board::<1>::new(STANDARD_COLS, STANDARD_ROWS);

    assert_eq!(board.drop_piece(10, Player::Red, &geo), None);
    assert_eq!(board.column_height(10, &geo), 0);
    assert!(board.is_column_full(10, &geo));
}

#[test]
fn test_board_sizes() {
    let size_7x6 = std::mem::size_of::<Board<1>>();
    let size_9x9 = std::mem::size_of::<Board<2>>();

    // 7x6 (one word): 2 * 8 + 2 = 18 bytes plus padding.
    assert!(size_7x6 <= 24, "7x6 Board too large: {}", size_7x6);
    // 9x9 (two words): 2 * 16 + 2 = 34 bytes plus padding.
    assert!(size_9x9 <= 40, "9x9 Board too large: {}", size_9x9);
}

#[test]
fn drop_lands_below_a_floating_piece() {
    let geo = make_geo();
    let mut board = Board::<1>::new(STANDARD_COLS, STANDARD_ROWS);
    board.set_piece(&Position::new(2, 4), Some(Player::Yellow));
    assert_eq!(board.drop_piece(2, Player::Red, &geo), Some(0));
    assert_eq!(board.column_height(2, &geo), 2);
    assert!(!board.is_column_full(2, &geo));
}

#[test]
fn set_piece_replaces_and_clear_empties() {
    let geo = make_geo();
    let mut board = Board::<1>::default();
    let pos = Position::new(6, 5);
    board.set_piece(&pos, Some(Player::Red));
    board.set_piece(&pos, Some(Player::Yellow));
    assert_eq!(board.get_piece(&pos), Some(Player::Yellow));
    assert!(board.is_column_full(6, &geo));
    board.clear();
    assert_eq!(board.get_piece(&pos), None);
    assert_eq!(board.width(), 7);
    assert_eq!(board.height(), 6);
}
