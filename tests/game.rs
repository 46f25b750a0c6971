use spooky_connect4::board::{STANDARD_COLS, STANDARD_ROWS};
use spooky_connect4::game::Game;
use spooky_connect4::moves::Move;
use spooky_connect4::outcome::GameOutcome;
use spooky_connect4::player::Player;
use spooky_connect4::position::Position;

type StdGame = Game<1>;

fn standard_game() -> StdGame {
    StdGame::new(STANDARD_COLS, STANDARD_ROWS)
}

#[test]
fn test_new_game() {
    let game = standard_game();
    assert_eq!(game.turn(), Player::Red);
    assert!(!game.is_over());
    assert!(game.outcome().is_none());
}

#[test]
fn test_legal_moves_initial() {
    let game = standard_game();
    let moves = game.legal_moves();
    assert_eq!(moves.len(), STANDARD_COLS as usize);
}

#[test]
fn test_make_move() {
    let mut game = standard_game();
    let move_ = Move::new(0, 0);

    assert!(game.is_legal_move(&move_));
    assert!(game.make_move(&move_));
    assert_eq!(game.turn(), Player::Yellow);
}

#[test]
fn test_make_invalid_move() {
    let mut game = standard_game();
    let move_ = Move::new(10, 0);

    assert!(!game.is_legal_move(&move_));
    assert!(!game.make_move(&move_));
}

#[test]
fn test_unmake_move() {
    let mut game = standard_game();
    let move_ = Move::new(0, 0);

    game.make_move(&move_);
    assert_eq!(game.turn(), Player::Yellow);

    assert!(game.unmake_move());
    assert_eq!(game.turn(), Player::Red);
    assert_eq!(game.move_history().len(), 0);
}

#[test]
fn game_test_vertical_win() {
    let mut game = standard_game();

    for i in 0..3u8 {
        let red_move = Move::new(0, i);
        game.make_move(&red_move);

        let yellow_move = Move::new(1, i);
        game.make_move(&yellow_move);
    }

    let winning_move = Move::new(0, 3);
    game.make_move(&winning_move);

    assert!(game.is_over());
    assert_eq!(game.outcome(), Some(GameOutcome::RedWin));
}

#[test]
fn game_test_horizontal_win() {
    let mut game = standard_game();

    for col in 0..3u8 {
        let red_move = Move::new(col, 0);
        game.make_move(&red_move);

        let yellow_move = Move::new(col, 1);
        game.make_move(&yellow_move);
    }

    let winning_move = Move::new(3, 0);
    game.make_move(&winning_move);

    assert!(game.is_over());
    assert_eq!(game.outcome(), Some(GameOutcome::RedWin));
}

#[test]
fn test_draw() {
    let mut game = standard_game();

    let pattern: Vec<u8> = vec![
        0, 1, 2, 0, 1, 2, 0, 1, 2, 0, 1, 2, 0, 1, 2, 0, 1, 2, // columns 0-2
        3, 4, 5, 3, 4, 5, 3, 4, 5, 3, 4, 5, 3, 4, 5, 3, 4, 5, // columns 3-5
        6, 6, 6, 6, 6, 6, // column 6
    ];

    for &col in &pattern {
        assert!(!game.is_over(), "Game ended early before board was filled");
        let legal_moves = game.legal_moves();
        let move_ = legal_moves.iter().find(|m| m.col == col).cloned();
        let m = move_.expect("Expected column to be playable");
        game.make_move(&m);
    }

    assert!(game.board().is_board_full(game.geo()));
    assert!(game.is_over());
    assert_eq!(game.outcome(), Some(GameOutcome::Draw));
}

#[test]
fn test_clone() {
    let mut game = standard_game();
    let move_ = Move::new(0, 0);
    game.make_move(&move_);

    let cloned = game.clone();
    assert_eq!(cloned.turn(), game.turn());
    assert_eq!(cloned.is_over(), game.is_over());
    assert_eq!(cloned.move_history().len(), game.move_history().len());
}

#[test]
fn test_move_history() {
    let mut game = standard_game();

    assert_eq!(game.move_history().len(), 0);

    let move1 = Move::new(0, 0);
    game.make_move(&move1);
    assert_eq!(game.move_history().len(), 1);

    let move2 = Move::new(1, 0);
    game.make_move(&move2);
    assert_eq!(game.move_history().len(), 2);

    game.unmake_move();
    assert_eq!(game.move_history().len(), 1);
}

#[test]
fn test_legal_moves_when_column_full() {
    let mut game = standard_game();

    for i in 0..STANDARD_ROWS {
        let move_ = Move::new(0, i);
        game.make_move(&move_);
    }

    let legal_moves = game.legal_moves();
    assert_eq!(legal_moves.len(), STANDARD_COLS as usize - 1);
    assert!(legal_moves.iter().all(|m| m.col != 0));
}

#[test]
fn test_legal_moves_when_game_over() {
    let mut game = standard_game();

    for i in 0..3u8 {
        game.make_move(&Move::new(0, i));
        game.make_move(&Move::new(1, i));
    }
    game.make_move(&Move::new(0, 3));

    assert!(game.is_over());
    assert_eq!(game.legal_moves().len(), 0);
}

#[test]
fn test_is_legal_move_after_column_full() {
    let mut game = standard_game();

    for i in 0..STANDARD_ROWS {
        game.make_move(&Move::new(0, i));
    }

    let move_ = Move::new(0, 0);
    assert!(!game.is_legal_move(&move_));
}

#[test]
fn test_multiple_unmakes() {
    let mut game = standard_game();

    for i in 0..5u8 {
        let col = i % STANDARD_COLS;
        let legal = game.legal_moves();
        let m = legal.iter().find(|m| m.col == col).unwrap();
        game.make_move(m);
    }

    assert_eq!(game.move_history().len(), 5);

    for _ in 0..5 {
        assert!(game.unmake_move());
    }

    assert_eq!(game.move_history().len(), 0);
    assert_eq!(game.turn(), Player::Red);
    assert!(!game.is_over());
}

#[test]
fn test_unmake_when_empty() {
    let mut game = standard_game();
    assert!(!game.unmake_move());
}

#[test]
fn unmake_restores_a_finished_game() {
    let mut game = standard_game();
    for i in 0..3u8 {
        game.make_move(&Move::new(0, i));
        game.make_move(&Move::new(1, i));
    }
    let board_before = *game.board();
    assert!(game.make_move(&Move::new(0, 3)));
    assert!(game.is_over());
    assert_eq!(game.turn(), Player::Yellow);
    assert!(game.unmake_move());
    assert_eq!(*game.board(), board_before);
    assert_eq!(game.turn(), Player::Red);
    assert!(!game.is_over());
    assert_eq!(game.outcome(), None);
    assert_eq!(game.move_history().len(), 6);
}

#[test]
fn wrong_row_is_rejected_without_change() {
    let mut game = standard_game();
    assert!(!game.make_move(&Move::new(2, 1)));
    assert_eq!(game.move_history().len(), 0);
    assert_eq!(game.turn(), Player::Red);
    assert!(game.make_move(&Move::new(2, 0)));
    assert_eq!(game.move_history(), &[Move::new(2, 0)]);
}

#[test]
fn yellow_wins_on_a_diagonal() {
    let mut game = standard_game();
    // Yellow builds the falling diagonal (3,0), (2,1), (1,2), (0,3).
    for col in [6u8, 3, 2, 2, 1, 1, 0, 1, 0, 0, 6, 0] {
        let m = game.legal_moves().into_iter().find(|m| m.col == col).unwrap();
        assert!(game.make_move(&m));
    }
    assert!(game.is_over());
    assert_eq!(game.outcome(), Some(GameOutcome::YellowWin));
    assert_eq!(game.turn(), Player::Red);
    assert!(game.legal_moves().is_empty());
    assert!(!game.make_move(&Move::new(4, 0)));
}

#[test]
fn game_pieces_as_integers() {
    let mut game = standard_game();
    game.make_move(&Move::new(4, 0));
    game.make_move(&Move::new(4, 1));
    assert_eq!(game.get_piece(&Position::new(4, 0)), Some(1));
    assert_eq!(game.get_piece(&Position::new(4, 1)), Some(-1));
    assert_eq!(game.get_piece(&Position::new(4, 2)), None);
    game.set_piece(&Position::new(4, 2), Some(Player::Red));
    assert_eq!(game.get_piece(&Position::new(4, 2)), Some(1));
    assert_eq!(game.width(), 7);
    assert_eq!(game.height(), 6);
}

#[test]
fn outcome_rewards() {
    assert_eq!(GameOutcome::RedWin.encode_winner_absolute(), 1);
    assert_eq!(GameOutcome::YellowWin.encode_winner_absolute(), -1);
    assert_eq!(GameOutcome::Draw.encode_winner_absolute(), 0);
    assert_eq!(GameOutcome::RedWin.encode_winner_from_perspective(Player::Yellow), -1);
    assert_eq!(GameOutcome::YellowWin.encode_winner_from_perspective(Player::Yellow), 1);
    assert_eq!(GameOutcome::Draw.encode_winner_from_perspective(Player::Red), 0);
    assert_eq!(GameOutcome::YellowWin.winner(), Some(Player::Yellow));
    assert_eq!(GameOutcome::Draw.winner(), None);
    assert!(GameOutcome::Draw.is_draw());
    assert!(!GameOutcome::RedWin.is_draw());
}

#[test]
fn player_conversions() {
    assert_eq!(Player::Red.opposite(), Player::Yellow);
    assert_eq!(Player::from_int(-1), Some(Player::Yellow));
    assert_eq!(Player::from_int(1), Some(Player::Red));
    assert_eq!(Player::from_int(0), None);
    assert_eq!(Player::Yellow.to_int(), -1);
    assert_eq!(Player::Red.to_char(), 'R');
    assert_eq!(Move::new(3, 2).position(), Position::new(3, 2));
    assert_eq!(Position::new(3, 2).to_index(7), 17);
    assert!(!Position::new(7, 0).is_valid(7, 6));
}
