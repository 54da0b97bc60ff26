//! Tests for the board: construction, indexing, square states, adjacency
//! and jump queries, move validation, application, and scoring.

use draught::Board;
use draught::BrdIdx;
use draught::Moveable;
use draught::Piece;
use draught::Square;
use draught::SquareState;
use draught::Strength;
use draught::Team;

#[test]
fn create() {
    let board = Board::new(8, 8, Team::Black);
    assert_eq!(board.width(), 8);
    assert_eq!(board.height(), 8);
    assert_eq!(board.current_turn(), Team::Black);
}

#[test]
fn std_num_cells() {
    let board = Board::new(8, 8, Team::Black);
    assert_eq!(64, board.num_cells());
}

#[test]
fn idx_diffs() {
    let from = BrdIdx::from(1, 1);
    let to = BrdIdx::from(2, 2);
    assert_eq!(Board::idx_diffs(from, to), (1, 1));

    let from = BrdIdx::from(2, 2);
    let to = BrdIdx::from(1, 1);
    assert_eq!(Board::idx_diffs(from, to), (-1, -1));

    let from = BrdIdx::from(5, 0);
    let to = BrdIdx::from(0, 10);
    assert_eq!(Board::idx_diffs(from, to), (-5, 10));
}

#[test]
fn set_cell() {
    let idx = 1;

    let mut board = Board::new(8, 8, Team::Black);
    let square = Square::pc(Team::White, Strength::Man);

    board.set_cell(idx, square);
    assert_eq!(square, board.cell(idx));
}

#[test]
fn cell_index_top_left() {
    let board = Board::new(8, 8, Team::Black);
    assert_eq!(0, board.cell_index(0, 0));
}

#[test]
fn cell_index_central() {
    let board = Board::new(8, 8, Team::Black);
    assert_eq!(9, board.cell_index(1, 1));
}

#[test]
fn cell_index_central_2() {
    let board = Board::new(8, 8, Team::Black);
    assert_eq!(17, board.cell_index(2, 1));
}

#[test]
fn board_index() {
    let board = Board::new(8, 8, Team::Black);

    // first row
    assert_eq!(BrdIdx::from(0, 5), board.board_index(5));
    // second row
    assert_eq!(BrdIdx::from(1, 6), board.board_index(14));
    // third row
    assert_eq!(BrdIdx::from(2, 4), board.board_index(20));
}

#[test]
fn first_square_unplayable() {
    let board = Board::new(8, 8, Team::Black);
    assert_eq!(SquareState::Unplayable, board.cell_state(board.cell_index(0, 0)));
}

#[test]
fn first_square_row_5_unplayable() {
    let board = Board::new(8, 8, Team::Black);
    assert_eq!(SquareState::Empty, board.cell_state(board.cell_index(5, 0)));
}

#[test]
fn moveable_indices_unplayable() {
    let board = Board::new(8, 8, Team::Black);
    assert_eq!(None, board.adjacent_indices(BrdIdx::from(7, 7)));
    assert_eq!(None, board.adjacent_indices(BrdIdx::from(0, 0)));
    assert_eq!(None, board.adjacent_indices(BrdIdx::from(1, 1)));
}

#[test]
fn moveable_indices_central() {
    let board = Board::new(8, 8, Team::Black);
    assert_eq!(Some(vec![1, 3, 17, 19]), board.adjacent_indices(BrdIdx::from(1, 2)));
}

#[test]
fn moveable_indices_top_row() {
    let board = Board::new(8, 8, Team::Black);
    assert_eq!(Some(vec![8, 10]), board.adjacent_indices(BrdIdx::from(0, 1)));
}

#[test]
fn moveable_indices_left_column() {
    let board = Board::new(8, 8, Team::Black);
    assert_eq!(Some(vec![1, 17]), board.adjacent_indices(BrdIdx::from(1, 0)));
}

#[test]
fn moveable_indices_bottom_row() {
    let board = Board::new(8, 8, Team::Black);
    assert_eq!(Some(vec![49, 51]), board.adjacent_indices(BrdIdx::from(7, 2)));
}

#[test]
fn moveable_indices_right_column() {
    let board = Board::new(8, 8, Team::Black);
    assert_eq!(Some(vec![14, 30]), board.adjacent_indices(BrdIdx::from(2, 7)));
}

#[test]
fn moveable_indices_top_right() {
    let board = Board::new(8, 8, Team::Black);
    assert_eq!(Some(vec![14]), board.adjacent_indices(BrdIdx::from(0, 7)));
}

#[test]
fn moveable_indices_bottom_left() {
    let board = Board::new(8, 8, Team::Black);
    assert_eq!(Some(vec![49]), board.adjacent_indices(BrdIdx::from(7, 0)));
}

#[test]
fn jumpable_indices_unplayable() {
    let board = Board::new(8, 8, Team::Black);
    assert_eq!(None, board.jumpable_indices(BrdIdx::from(7, 7)));
    assert_eq!(None, board.jumpable_indices(BrdIdx::from(0, 0)));
    assert_eq!(None, board.jumpable_indices(BrdIdx::from(1, 1)));
}

#[test]
fn jumpable_indices() {
    let board = Board::new(8, 8, Team::Black);
    assert_eq!(Some(vec![24, 28]), board.jumpable_indices(BrdIdx::from(1, 2)));
}

#[test]
fn jumpable_indices_central() {
    let board = Board::new(8, 8, Team::Black);
    assert_eq!(Some(vec![10, 14, 42, 46]), board.jumpable_indices(BrdIdx::from(3, 4)));
}

#[test]
fn jumpable_indices_top_row() {
    let board = Board::new(8, 8, Team::Black);
    assert_eq!(Some(vec![19]), board.jumpable_indices(BrdIdx::from(0, 1)));
}

#[test]
fn jumpable_indices_left_column() {
    let board = Board::new(8, 8, Team::Black);
    assert_eq!(Some(vec![26]), board.jumpable_indices(BrdIdx::from(1, 0)));
}

#[test]
fn jumpable_indices_bottom_row() {
    let board = Board::new(8, 8, Team::Black);
    assert_eq!(Some(vec![40, 44]), board.jumpable_indices(BrdIdx::from(7, 2)));
}

#[test]
fn jumpable_indices_right_column() {
    let board = Board::new(8, 8, Team::Black);
    assert_eq!(Some(vec![5, 37]), board.jumpable_indices(BrdIdx::from(2, 7)));
}

#[test]
fn jumpable_indices_top_right() {
    let board = Board::new(8, 8, Team::Black);
    assert_eq!(Some(vec![21]), board.jumpable_indices(BrdIdx::from(0, 7)));
}

#[test]
fn jumpable_indices_bottom_left() {
    let board = Board::new(8, 8, Team::Black);
    assert_eq!(Some(vec![42]), board.jumpable_indices(BrdIdx::from(7, 0)));
}

#[test]
fn black_adjacent_indices() {
    let board = Board::new(8, 8, Team::Black);
    assert_eq!(Some(vec![1, 3]), board.player_adjacent_indices(BrdIdx::from(1, 2), Team::Black));
}

#[test]
fn white_adjacent_indices() {
    let board = Board::new(8, 8, Team::Black);
    assert_eq!(Some(vec![17, 19]), board.player_adjacent_indices(BrdIdx::from(1, 2), Team::White));
}

#[test]
fn check_jumpee_opposing_teams() {
    let from = Piece::new(Team::Black, Strength::Man);
    let jumpee = Piece::new(Team::White, Strength::Man);
    assert_eq!(Board::check_jumpee_team(from, jumpee), true);

    let from = Piece::new(Team::White, Strength::Man);
    let jumpee = Piece::new(Team::Black, Strength::Man);
    assert_eq!(Board::check_jumpee_team(from, jumpee), true);
}

#[test]
fn check_jumpee_same_teams() {
    let from = Piece::new(Team::Black, Strength::Man);
    let jumpee = Piece::new(Team::Black, Strength::Man);
    assert_eq!(Board::check_jumpee_team(from, jumpee), false);

    let from = Piece::new(Team::White, Strength::Man);
    let jumpee = Piece::new(Team::White, Strength::Man);
    assert_eq!(Board::check_jumpee_team(from, jumpee), false);
}

#[test]
fn check_validate_jumpee_opposing_teams() {
    let jumpee_square = Square::pc(Team::White, Strength::Man);
    let from_piece = Piece::new(Team::Black, Strength::Man);

    assert_eq!(Board::validate_jumpee(jumpee_square, from_piece), Moveable::Allowed);

    let jumpee_square = Square::pc(Team::Black, Strength::Man);
    let from_piece = Piece::new(Team::White, Strength::Man);

    assert_eq!(Board::validate_jumpee(jumpee_square, from_piece), Moveable::Allowed);
}

#[test]
fn check_validate_jumpee_same_teams() {
    let jumpee_square = Square::pc(Team::White, Strength::Man);
    let from_piece = Piece::new(Team::White, Strength::Man);

    assert_eq!(Board::validate_jumpee(jumpee_square, from_piece), Moveable::JumpingSameTeam);

    let jumpee_square = Square::pc(Team::Black, Strength::Man);
    let from_piece = Piece::new(Team::Black, Strength::Man);

    assert_eq!(Board::validate_jumpee(jumpee_square, from_piece), Moveable::JumpingSameTeam);
}

#[test]
fn score() {
    let board = Board::new(8, 8, Team::Black);
    assert_eq!(0, board.score());

    let mut board = Board::new(8, 8, Team::Black);
    let square = Square::pc(Team::Black, Strength::Man);
    board.set_cell(1, square);
    assert_eq!(1, board.score());

    let square = Square::pc(Team::White, Strength::Man);
    board.set_cell(5, square);
    let square = Square::pc(Team::Black, Strength::Man);
    board.set_cell(7, square);
    let square = Square::pc(Team::Black, Strength::Man);
    board.set_cell(8, square);
    assert_eq!(2, board.score());
}

#[test]
fn score_decomposes_into_team_counts() {
    let mut board = Board::init_game(Board::new(8, 8, Team::White), 3);
    assert_eq!(board.num_player(Team::Black), 12);
    assert_eq!(board.num_player(Team::White), 12);
    assert_eq!(board.num_pieces(), 24);
    assert_eq!(
        board.score(),
        board.num_player(Team::Black) as isize - board.num_player(Team::White) as isize
    );

    // take one White piece off and re-check the decomposition
    board.set_cell(board.cell_index(1, 0), Square::empty());
    assert_eq!(board.score(), 1);
    assert_eq!(
        board.score(),
        board.num_player(Team::Black) as isize - board.num_player(Team::White) as isize
    );
}

#[test]
fn validate_man_move_team_directions() {
    // white needs increasing rows

    // allowed, white moves down the board
    let board = Board::new(8, 8, Team::White);
    let from = BrdIdx::from(1, 2);
    let to = BrdIdx::from(2, 3);
    let piece = Piece::new(Team::White, Strength::Man);

    assert_eq!(Moveable::Allowed, board.validate_man_move(from, to, piece));

    // unallowed, white moves up the board
    let board = Board::new(8, 8, Team::White);
    let from = BrdIdx::from(2, 3);
    let to = BrdIdx::from(1, 2);
    let piece = Piece::new(Team::White, Strength::Man);

    assert_eq!(Moveable::IllegalTrajectory, board.validate_man_move(from, to, piece));

    // allowed, black moves up the board
    let board = Board::new(8, 8, Team::Black);
    let from = BrdIdx::from(2, 3);
    let to = BrdIdx::from(1, 2);
    let piece = Piece::new(Team::Black, Strength::Man);

    assert_eq!(Moveable::Allowed, board.validate_man_move(from, to, piece));

    // unallowed, black moves down the board
    let board = Board::new(8, 8, Team::Black);
    let from = BrdIdx::from(1, 2);
    let to = BrdIdx::from(2, 3);
    let piece = Piece::new(Team::Black, Strength::Man);

    assert_eq!(Moveable::IllegalTrajectory, board.validate_man_move(from, to, piece));
}

#[test]
fn validate_man_move_weird_trajectories() {
    let board = Board::new(8, 8, Team::White);
    let from = BrdIdx::from(1, 2);
    let to = BrdIdx::from(3, 3);
    let piece = Piece::new(Team::White, Strength::Man);

    assert_eq!(Moveable::IllegalTrajectory, board.validate_man_move(from, to, piece));

    let board = Board::new(8, 8, Team::White);
    let from = BrdIdx::from(2, 3);
    let to = BrdIdx::from(1, 1);
    let piece = Piece::new(Team::White, Strength::Man);

    assert_eq!(Moveable::IllegalTrajectory, board.validate_man_move(from, to, piece));

    let board = Board::new(8, 8, Team::Black);
    let from = BrdIdx::from(5, 2);
    let to = BrdIdx::from(1, 1);
    let piece = Piece::new(Team::Black, Strength::Man);

    assert_eq!(Moveable::IllegalTrajectory, board.validate_man_move(from, to, piece));

    let board = Board::new(8, 8, Team::Black);
    let from = BrdIdx::from(1, 2);
    let to = BrdIdx::from(2, 5);
    let piece = Piece::new(Team::Black, Strength::Man);

    assert_eq!(Moveable::IllegalTrajectory, board.validate_man_move(from, to, piece));
}

#[test]
fn can_move() {
    // white needs increasing rows
    let board = Board::new(8, 8, Team::White);
    let mut board = Board::init_game(board, 3);

    // white can move down
    let from = BrdIdx::from(2, 1);
    let to = BrdIdx::from(3, 0);
    assert_eq!(board.can_move(from, to), Moveable::Allowed);

    // going straight down
    let from = BrdIdx::from(2, 1);
    let to = BrdIdx::from(3, 1);
    assert_eq!(board.can_move(from, to), Moveable::IllegalTrajectory);

    // going directly right
    let from = BrdIdx::from(2, 1);
    let to = BrdIdx::from(2, 2);
    assert_eq!(board.can_move(from, to), Moveable::IllegalTrajectory);

    // jumping an empty square
    let from = BrdIdx::from(2, 1);
    let to = BrdIdx::from(4, 3);
    assert_eq!(board.can_move(from, to), Moveable::NoJumpablePiece);

    // empty source cell
    let from = BrdIdx::from(3, 0);
    let to = BrdIdx::from(4, 3);
    assert_eq!(board.can_move(from, to), Moveable::UnoccupiedSrc);

    // out of the board
    let from = BrdIdx::from(50, 50);
    let to = BrdIdx::from(4, 3);
    assert_eq!(board.can_move(from, to), Moveable::OutOfBounds);
    let from = BrdIdx::from(5, 5);
    let to = BrdIdx::from(50, 50);
    assert_eq!(board.can_move(from, to), Moveable::OutOfBounds);

    // unplayable squares
    let from = BrdIdx::from(0, 0);
    let to = BrdIdx::from(4, 3);
    assert_eq!(board.can_move(from, to), Moveable::Unplayable);
    let from = BrdIdx::from(1, 1);
    let to = BrdIdx::from(0, 0);
    assert_eq!(board.can_move(from, to), Moveable::Unplayable);

    board.set_turn(Team::Black);

    // wrong team's piece
    let from = BrdIdx::from(2, 1);
    let to = BrdIdx::from(4, 3);
    assert_eq!(board.can_move(from, to), Moveable::WrongTeamSrc);
}

#[test]
fn can_move_jump() {
    let board = Board::new(8, 8, Team::White);
    let mut board = Board::init_game(board, 3);

    board.set_cell(board.cell_index(3, 2), Square::pc(Team::Black, Strength::Man));

    // white can jump the black man
    let from = BrdIdx::from(2, 1);
    let to = BrdIdx::from(4, 3);
    assert_eq!(board.can_move(from, to), Moveable::Allowed);

    board.set_cell(board.cell_index(3, 2), Square::pc(Team::White, Strength::Man));

    let from = BrdIdx::from(2, 1);
    let to = BrdIdx::from(4, 3);
    assert_eq!(board.can_move(from, to), Moveable::JumpingSameTeam);

    // moving into a full cell
    let from = BrdIdx::from(2, 1);
    let to = BrdIdx::from(3, 2);
    assert_eq!(board.can_move(from, to), Moveable::OccupiedDest);
}

#[test]
fn apply_move_relocates_the_piece_and_passes_the_turn() {
    let board = Board::init_game(Board::new(8, 8, Team::White), 3);
    let from = BrdIdx::from(2, 1);
    let to = BrdIdx::from(3, 0);
    assert_eq!(board.can_move(from, to), Moveable::Allowed);

    let next = board.apply_move(from, to);
    assert_eq!(next.cell(next.cell_idx(to)), Square::pc(Team::White, Strength::Man));
    assert_eq!(next.cell_state(next.cell_idx(from)), SquareState::Empty);
    assert_eq!(next.current_turn(), Team::Black);
    assert_eq!(next.num_pieces(), board.num_pieces());
    assert_eq!(next.score(), board.score());
}

#[test]
fn apply_jump_captures_the_jumpee() {
    let mut board = Board::init_game(Board::new(8, 8, Team::White), 3);
    board.set_cell(board.cell_index(3, 2), Square::pc(Team::Black, Strength::Man));
    let from = BrdIdx::from(2, 1);
    let to = BrdIdx::from(4, 3);
    assert_eq!(board.can_move(from, to), Moveable::Allowed);

    let next = board.apply_jump(from, to);
    assert_eq!(next.cell(next.cell_idx(to)), Square::pc(Team::White, Strength::Man));
    assert_eq!(next.cell_state(next.cell_idx(from)), SquareState::Empty);
    assert_eq!(next.cell_state(next.cell_index(3, 2)), SquareState::Empty);
    assert_eq!(next.current_turn(), Team::Black);
    assert_eq!(next.num_player(Team::Black), board.num_player(Team::Black) - 1);
    assert_eq!(next.num_player(Team::White), board.num_player(Team::White));
}

#[test]
fn king_step_reverses_but_man_step_does_not() {
    // a lone white king can step back to where it came from
    let mut board = Board::new(8, 8, Team::White);
    board.set_cell(board.cell_index(2, 1), Square::pc(Team::White, Strength::King));
    let from = BrdIdx::from(2, 1);
    let to = BrdIdx::from(3, 2);
    let king = Piece::new(Team::White, Strength::King);
    assert_eq!(board.validate_king_move(from, to, king), Moveable::Allowed);
    assert_eq!(board.validate_king_move(to, from, king), Moveable::Allowed);

    // a white man cannot walk the same step backwards
    let man = Piece::new(Team::White, Strength::Man);
    assert_eq!(board.validate_man_move(from, to, man), Moveable::Allowed);
    assert_eq!(board.validate_man_move(to, from, man), Moveable::IllegalTrajectory);
}

#[test]
fn grid_cell_and_dirs() {
    let board = Board::init_game(Board::new(8, 8, Team::White), 3);
    assert_eq!(board.grid_cell(BrdIdx::from(2, 1)), Square::pc(Team::White, Strength::Man));

    let dir = board.adjacent_dir(BrdIdx::from(2, 1)).unwrap();
    assert_eq!(dir.nw, Some(Square::pc(Team::White, Strength::Man)));
    assert_eq!(dir.ne, Some(Square::pc(Team::White, Strength::Man)));
    assert_eq!(dir.sw, Some(Square::empty()));
    assert_eq!(dir.se, Some(Square::empty()));

    let jdir = board.jumpable_dir(BrdIdx::from(2, 1)).unwrap();
    assert_eq!(jdir.ne, Some(Square::pc(Team::White, Strength::Man)));
    assert_eq!(jdir.se, Some(Square::empty()));
    assert_eq!(jdir.sw, None);
    assert_eq!(jdir.nw, None);

    assert_eq!(board.adjacent_dir(BrdIdx::from(0, 0)), None);
    assert_eq!(board.jumpable_dir(BrdIdx::from(0, 0)), None);
}

#[test]
fn player_jumpable_indices_filters_forward() {
    let board = Board::new(8, 8, Team::Black);
    assert_eq!(Some(vec![10, 14]), board.player_jumpable_indices(BrdIdx::from(3, 4), Team::Black));
    assert_eq!(Some(vec![42, 46]), board.player_jumpable_indices(BrdIdx::from(3, 4), Team::White));
}

#[test]
fn opponent_is_involutive() {
    assert_eq!(Team::Black.opponent(), Team::White);
    assert_eq!(Team::White.opponent(), Team::Black);
    assert_eq!(Team::Black.opponent().opponent(), Team::Black);
}

#[test]
fn jumpee_idx_is_the_midpoint() {
    let board = Board::new(8, 8, Team::White);
    assert_eq!(board.jumpee_idx(BrdIdx::from(2, 1), BrdIdx::from(4, 3)), board.cell_index(3, 2));
    assert_eq!(board.jumpee_idx(BrdIdx::from(4, 3), BrdIdx::from(2, 1)), board.cell_index(3, 2));
}
