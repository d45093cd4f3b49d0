use caro_zero::constants;
use caro_zero::rules::types::{Board, GameResult, GameState, Move};

#[test]
fn board_evaluation_test() {
    let mut board = Board::init_board();
    assert!(
        matches!(board.evaluate(), GameResult::NotFinished),
        "empty board is finished??"
    );
    board.set_grid(0, 0, 0, true);
    board.set_grid(0, 1, 0, true);
    board.set_grid(0, 2, 0, true);
    assert!(matches!(board.evaluate(), GameResult::NotFinished));
    board.set_grid(0, 3, 0, true);
    board.set_grid(0, 4, 0, true);
    assert!(
        matches!(board.evaluate(), GameResult::XWins),
        "can't detect wins"
    );
    board.set_grid(0, 3, 0, false);
    assert!(matches!(board.evaluate(), GameResult::NotFinished));
    board.set_grid(2, 2, 1, true);
    board.set_grid(3, 3, 1, true);
    board.set_grid(4, 4, 1, true);
    assert!(matches!(board.evaluate(), GameResult::NotFinished));
    board.set_grid(5, 5, 1, true);
    board.set_grid(6, 6, 1, true);
    assert!(matches!(board.evaluate(), GameResult::OWins));
    board.set_grid(7, 7, 0, true);
    assert!(matches!(board.evaluate(), GameResult::OWins));
    board.set_grid(1, 1, 0, true);
    if constants::BLOCKED_HEADS_RULE {
        assert!(
            matches!(board.evaluate(), GameResult::NotFinished),
            "can't detect blocked"
        );
    } else {
        assert!(matches!(board.evaluate(), GameResult::OWins));
    }
}

#[test]
fn legal_moves_test() {
    let mut board = Board::init_board();
    assert_eq!(
        board.get_legal_moves(None).len(),
        constants::BOARD_HEIGHT * constants::BOARD_WIDTH
    );

    board.move_board_randomly();
    board.move_board_randomly();
    board.move_board_randomly();
    board.move_board_randomly();
    assert_eq!(
        board.get_legal_moves(None).len(),
        constants::BOARD_HEIGHT * constants::BOARD_WIDTH - 4
    );
}

#[test]
fn move_game_test() {
    let mut game = GameState::init_game_state();
    game.move_game(Move::new(0, 0), None);
    assert!(game.get_grid(0, 0, 6));
    assert!(game.get_grid(0, 0, 8));
    game.move_game(Move::new(0, 1), None);
    assert!(game.get_grid(0, 0, 6));
    assert!(game.get_grid(0, 1, 7));
    assert!(game.get_grid(0, 0, 4));
    assert!(!game.get_grid(0, 1, 5));

    assert!(!game.get_grid(0, 0, 8));
    game.move_game(Move::new(0, 2), None);
    assert!(game.get_grid(0, 2, 6));

    assert!(game.get_grid(0, 0, 4));
    assert!(game.get_grid(0, 0, 2));

    assert!(!game.get_grid(0, 2, 4));

    assert!(game.get_grid(0, 1, 5));

    assert!(game.get_grid(0, 0, 8));
}

#[test]
fn play_10_boards_randomly() {
    for _ in 0..10 {
        let mut board = Board::init_board();
        while matches!(board.evaluate(), GameResult::NotFinished) {
            board.move_board_randomly();
        }
    }
}

#[test]
fn play_10_games_randomly() {
    for _ in 0..10 {
        let mut game_state = GameState::init_game_state();
        let mut board = game_state.get_board_view();
        while matches!(board.evaluate(), GameResult::NotFinished) {
            game_state.move_game_randomly();
            board = game_state.get_board_view();
        }
    }
}

#[test]
fn fresh_board_has_all_cells_legal_and_one_fewer_after_a_move() {
    let mut board = Board::init_board();
    assert_eq!(board.get_legal_moves(None).len(), 169);
    board.move_board(Move::new(6, 6), None);
    assert_eq!(board.get_legal_moves(None).len(), 168);
}

#[test]
fn evaluation_is_pure() {
    let mut board = Board::init_board();
    board.set_grid(3, 4, 0, true);
    board.set_grid(5, 5, 1, true);
    let first = board.evaluate();
    let second = board.evaluate();
    assert_eq!(first, second);
}

#[test]
fn onehot_marks_exactly_the_free_cells() {
    let mut board = Board::init_board();
    board.move_board(Move::new(2, 3), None);
    let mask = board.legal_moves_onehot(None);
    assert_eq!(mask.len(), 169);
    assert!(!mask[constants::move_to_index((2, 3))]);
    let marked = mask.iter().filter(|&&b| b).count();
    assert_eq!(marked, 168);
}

#[test]
fn move_to_index_round_trip() {
    assert_eq!(constants::move_to_index((4, 7)), 4 + 7 * 13);
    assert_eq!(constants::index_to_move(4 + 7 * 13), (4, 7));
}

#[test]
fn validate_consts_accepts_the_configuration() {
    assert!(caro_zero::rules::vaildate_consts().is_ok());
}

#[test]
fn coord3d_round_trip() {
    let c = caro_zero::rules::types::Coord3D::new(1, 2, 3);
    assert_eq!(c.x(), 1);
    assert_eq!(c.y(), 2);
    assert_eq!(c.t(), 3);
    let mv = Move::new(5, 9);
    assert_eq!(mv.get_move_arr(), [9, 5, 0]);
    assert!(caro_zero::rules::types::Side::X.to_bool());
    assert!(!caro_zero::rules::types::Side::O.to_bool());
    assert!(!GameResult::NotFinished.has_ended());
    assert!(GameResult::Draws.has_ended());
}
