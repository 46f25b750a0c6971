use spooky_connect4::board::{Board, STANDARD_COLS, STANDARD_ROWS};
use spooky_connect4::encode::{decode_move, encode_game_planes, encode_move};
use spooky_connect4::game::Game;
use spooky_connect4::geometry::BoardGeometry;
use spooky_connect4::moves::Move;
use spooky_connect4::player::Player;

#[test]
fn make_then_unmake_restores_every_legal_move() {
    let mut game = Game::<1>::new(STANDARD_COLS, STANDARD_ROWS);
    for col in [3u8, 3, 4, 2, 2, 5, 0] {
        let m = game.legal_moves().into_iter().find(|m| m.col == col).unwrap();
        game.make_move(&m);
    }
    for m in game.legal_moves() {
        let board = *game.board();
        let turn = game.turn();
        let history = game.move_history().to_vec();
        assert!(game.make_move(&m));
        assert!(game.unmake_move());
        assert_eq!(*game.board(), board);
        assert_eq!(game.turn(), turn);
        assert_eq!(game.move_history(), &history[..]);
        assert!(!game.is_over());
        assert_eq!(game.outcome(), None);
    }
}

#[test]
fn full_column_is_closed() {
    let geo = BoardGeometry::<1>::new(4, 4);
    let mut board = Board::<1>::new(4, 4);
    for _ in 0..4 {
        assert!(board.drop_piece(1, Player::Yellow, &geo).is_some());
    }
    assert!(board.is_column_full(1, &geo));
    assert_eq!(board.drop_piece(1, Player::Red, &geo), None);

    let mut game = Game::<1>::new(4, 4);
    for i in 0..4u8 {
        assert!(game.make_move(&Move::new(2, i)));
    }
    assert!(!game.make_move(&Move::new(2, 4)));
    assert!(game.legal_moves().iter().all(|m| m.col != 2));
    assert_eq!(decode_move(2, &game), None);
}

#[test]
fn action_codec_round_trip_on_several_sizes() {
    let mut small = Game::<1>::new(4, 5);
    small.make_move(&Move::new(1, 0));
    for m in small.legal_moves() {
        assert_eq!(decode_move(encode_move(&m), &small), Some(m));
    }
    assert_eq!(decode_move(4, &small), None);

    let mut large = Game::<16>::new(32, 32);
    large.make_move(&Move::new(31, 0));
    for m in large.legal_moves() {
        assert_eq!(decode_move(encode_move(&m), &large), Some(m));
    }
    assert_eq!(decode_move(32, &large), None);
}

#[test]
fn encoding_twice_gives_the_same_and_keeps_the_game() {
    let mut game = Game::<2>::new(9, 9);
    for col in [0u8, 8, 4, 4, 4, 1, 2, 3, 5, 6] {
        game.make_move(&Move::new(col, game.board().column_height(col, game.geo())));
    }
    let history = game.move_history().to_vec();
    let first = encode_game_planes(&mut game);
    let second = encode_game_planes(&mut game);
    assert_eq!(first, second);
    assert_eq!(game.move_history(), &history[..]);
    assert_eq!(game.turn(), Player::Red);
}
