//! Tests for the session layer: making moves, jumps, history, win
//! detection, and the automated turn.

use draught::Board;
use draught::BrdIdx;
use draught::Moveable;
use draught::Square;
use draught::SquareState;
use draught::Strength;
use draught::Team;
use draught::Game;

#[test]
fn make_move() {
    let mut game = Game::new(8, 8, 3, Team::Black, 4);

    let from = BrdIdx::from(5, 2);
    let to = BrdIdx::from(4, 1);

    assert_eq!(game.make_move(from, to), Moveable::Allowed);
    let board = game.current_board();
    assert_eq!(board.cell(board.cell_index(4, 1)), Square::pc(Team::Black, Strength::Man));

    // the turn has passed to White, who can now answer
    let from = BrdIdx::from(2, 1);
    let to = BrdIdx::from(3, 2);

    assert_eq!(game.make_move(from, to), Moveable::Allowed);
    let board = game.current_board();
    assert_eq!(board.cell(board.cell_index(3, 2)), Square::pc(Team::White, Strength::Man));
}

#[test]
fn make_jump() {
    let mut game = Game::new(8, 8, 3, Team::Black, 4);

    // plant a white man where black can jump it
    let mut board = Board::init_game(Board::new(8, 8, Team::Black), 3);
    board.set_cell(board.cell_index(4, 1), Square::pc(Team::White, Strength::Man));
    game.set_current(board);

    let from = BrdIdx::from(5, 2);
    let to = BrdIdx::from(3, 0);

    assert_eq!(game.make_move(from, to), Moveable::Allowed);
    let board = game.current_board();
    assert_eq!(board.cell(board.cell_index(3, 0)), Square::pc(Team::Black, Strength::Man));
    assert_eq!(board.cell_state(board.cell_index(4, 1)), SquareState::Empty);
    assert_eq!(board.cell_state(board.cell_index(5, 2)), SquareState::Empty);
    assert_eq!(board.num_player(Team::White), 12);
}

#[test]
fn illegal_move_changes_nothing() {
    let mut game = Game::new(8, 8, 3, Team::Black, 4);
    let score_before = game.score();

    // white's piece, black's turn
    let r = game.make_move(BrdIdx::from(2, 1), BrdIdx::from(3, 2));
    assert_eq!(r, Moveable::WrongTeamSrc);
    assert_eq!(game.current_turn(), Team::Black);
    assert_eq!(game.score(), score_before);
}

#[test]
fn history_grows_with_each_move() {
    let mut game = Game::new(8, 8, 3, Team::Black, 4);
    assert_eq!(game.make_move(BrdIdx::from(5, 2), BrdIdx::from(4, 1)), Moveable::Allowed);

    let previous = game.previous_board(0);
    assert_eq!(
        previous.cell(previous.cell_index(5, 2)),
        Square::pc(Team::Black, Strength::Man)
    );
    assert_eq!(previous.cell_state(previous.cell_index(4, 1)), SquareState::Empty);
}

#[test]
fn winning_and_has_won() {
    let mut game = Game::new(8, 8, 3, Team::White, 4);
    assert_eq!(game.winning(), None);
    assert_eq!(game.has_won(), None);

    // a board where white has been wiped out
    let mut board = Board::new(4, 4, Team::White);
    board.set_cell(board.cell_index(0, 1), Square::pc(Team::Black, Strength::Man));
    game.set_current(board);

    assert_eq!(game.winning(), Some(Team::Black));
    assert_eq!(game.has_won(), Some(Team::Black));
    assert_eq!(game.score(), 1);
}

#[test]
fn selection_is_tracked() {
    let mut game = Game::new(8, 8, 3, Team::Black, 4);
    let idx = BrdIdx::from(5, 2);
    game.set_selected(&idx);
    game.clear_selected();
    assert_eq!(game.current_cell_state(&idx).state, SquareState::Occupied);
}

#[test]
fn ai_move_plays_a_turn() {
    let mut game = Game::new(8, 8, 3, Team::White, 4);
    game.set_search_depth(2);
    game.set_perfect_chance(1_000_000);

    game.ai_move();

    // white has moved one man off the third row and the turn has passed
    assert_eq!(game.current_turn(), Team::Black);
    assert_eq!(game.current_board().num_player(Team::White), 12);
    assert_eq!(game.current_board().num_player(Team::Black), 12);
    assert!(game.last_node_count() > 0);
}

#[test]
fn ai_move_passes_the_turn_without_moves() {
    let mut game = Game::new(4, 4, 1, Team::White, 4);

    // a position with no white pieces at all: the turn simply passes
    let mut board = Board::new(4, 4, Team::White);
    board.set_cell(board.cell_index(3, 0), Square::pc(Team::Black, Strength::Man));
    game.set_current(board);

    game.ai_move();

    assert_eq!(game.current_turn(), Team::Black);
    assert_eq!(game.current_board().num_player(Team::Black), 1);
}

#[test]
fn perfect_chance_is_configurable() {
    let mut game = Game::new(8, 8, 3, Team::White, 4);
    assert_eq!(game.perfect_chance(), 500_000);
    game.set_perfect_chance(250_000);
    assert_eq!(game.perfect_chance(), 250_000);
}
