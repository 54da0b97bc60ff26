//! The session layer: holds the current board and the move history, applies
//! player moves after checking their legality, and asks the automated player
//! for moves.

use vstd::prelude::*;

use crate::board::init_cell;
use crate::board::starting_cell;
use crate::board::Board;
use crate::board::BoardView;
use crate::board::BrdIdx;
use crate::board::Square;
use crate::comp::apply_mv;
use crate::comp::available_moves;
use crate::comp::minimax_value;
use crate::comp::tree_size;
use crate::comp::Computer;
use crate::enums::Moveable;
use crate::enums::SquareState;
use crate::enums::Team;

verus! {

/// Mathematical model of a game in progress: the current board, the boards
/// of earlier turns, the selected square if any, and the player settings.
#[verifier::ext_equal]
pub ghost struct GameView {
    pub current: BoardView,
    pub previous: Seq<BoardView>,
    pub selected_piece: Option<BrdIdx>,
    pub search_depth: int,
    pub last_node_count: int,
    pub perfect_chance: u32,
}

impl GameView {
    /// A game is well formed when its current board is.
    pub open spec fn wf(self) -> bool {
        self.current.wf()
    }
}

/// The board a fresh game starts from: the checkerboard lattice of the given
/// extents, with `piece_rows` rows of White men at the top and `piece_rows`
/// rows of Black men at the bottom.
pub open spec fn start_board(width: int, height: int, piece_rows: int, first_turn: Team) -> BoardView {
    let base = BoardView {
        cells: Seq::new((width * height) as nat, |i: int| starting_cell(width, i)),
        width,
        height,
        turn: first_turn,
    };
    BoardView { cells: Seq::new(base.cells.len(), |i: int| init_cell(base, piece_rows, i)), ..base }
}

/// Root-level structure for managing the game as a collection of board
/// states.
pub struct Game {
    current: Board,
    selected_piece: Option<BrdIdx>,
    previous_boards: Vec<Board>,
    search_depth: usize,
    last_node_count: usize,
    perfect_chance: u32,
}

impl View for Game {
    type V = GameView;

    closed spec fn view(&self) -> GameView {
        GameView {
            current: self.current@,
            previous: self.previous_boards@.map_values(|b: Board| b@),
            selected_piece: self.selected_piece,
            search_depth: self.search_depth as int,
            last_node_count: self.last_node_count as int,
            perfect_chance: self.perfect_chance,
        }
    }
}

impl Game {
    /// A new game on a `width` by `height` board with `piece_rows` rows of
    /// men per side, the given side to move first, and the given search
    /// depth for the automated player.
    pub fn new(
        width: usize,
        height: usize,
        piece_rows: usize,
        first_turn: Team,
        search_depth: usize,
    ) -> (r: Game)
        requires
            1 <= width,
            1 <= height,
            width * height <= isize::MAX as int,
            piece_rows <= height,
        ensures
            r@.wf(),
            r@.current == start_board(width as int, height as int, piece_rows as int, first_turn),
            r@.previous == Seq::<BoardView>::empty(),
            r@.selected_piece is None,
            r@.search_depth == search_depth as int,
            r@.last_node_count == 0,
            r@.perfect_chance == 500_000u32,
    {
        let base = Board::new(width, height, first_turn);
        let current = Board::init_game(base, piece_rows);
        proof {
            let base_v = BoardView {
                cells: Seq::new(
                    (width as int * height as int) as nat,
                    |i: int| starting_cell(width as int, i),
                ),
                width: width as int,
                height: height as int,
                turn: first_turn,
            };
            assert(base@ =~= base_v);
            assert(current@ =~= start_board(
                width as int,
                height as int,
                piece_rows as int,
                first_turn,
            ));
        }
        let r = Game {
            current,
            selected_piece: None,
            previous_boards: Vec::new(),
            search_depth,
            last_node_count: 0,
            perfect_chance: 500_000,
        };
        proof {
            assert(r@.previous =~= Seq::<BoardView>::empty());
        }
        r
    }

    /// A read-only view of the board as it stood before a given turn.
    pub fn previous_board(&self, turn: usize) -> (r: &Board)
        requires
            (turn as int) < self@.previous.len(),
        ensures
            r@ == self@.previous[turn as int],
    {
        &self.previous_boards[turn]
    }

    /// A read-only view of the current board.
    pub fn current_board(&self) -> (r: &Board)
        ensures
            r@ == self@.current,
    {
        &self.current
    }

    /// The number of squares of the current board.
    pub fn current_board_len(&self) -> (r: usize)
        ensures
            r as int == self@.current.cells.len(),
    {
        self.current.num_cells()
    }

    /// The side to move on the current board.
    pub fn current_turn(&self) -> (r: Team)
        ensures
            r == self@.current.turn,
    {
        self.current.current_turn()
    }

    /// The number of nodes the automated player's last search visited,
    /// excluding the root.
    pub fn last_node_count(&self) -> (r: usize)
        ensures
            r as int == self@.last_node_count,
    {
        self.last_node_count
    }

    /// The chance of a perfect move, out of
    /// [`crate::comp::PERFECT_CHANCE_SCALE`].
    pub fn perfect_chance(&self) -> (r: u32)
        ensures
            r == self@.perfect_chance,
    {
        self.perfect_chance
    }

    /// The material score of the current board: Black pieces minus White
    /// pieces.
    pub fn score(&self) -> (r: isize)
        requires
            self@.wf(),
        ensures
            r as int == self@.current.score_v(),
    {
        self.current.score()
    }

    /// The side currently ahead on material, if either is.
    pub fn winning(&self) -> (r: Option<Team>)
        requires
            self@.wf(),
        ensures
            r == (if self@.current.score_v() < 0 {
                Some(Team::White)
            } else if self@.current.score_v() == 0 {
                None::<Team>
            } else {
                Some(Team::Black)
            }),
    {
        let current_score = self.score();
        if current_score < 0 {
            Some(Team::White)
        } else if current_score == 0 {
            None
        } else {
            Some(Team::Black)
        }
    }

    /// The winner, if one side has no pieces left.
    pub fn has_won(&self) -> (r: Option<Team>)
        requires
            self@.wf(),
        ensures
            r == (if self@.current.team_count(Team::White) == 0 {
                Some(Team::Black)
            } else if self@.current.team_count(Team::Black) == 0 {
                Some(Team::White)
            } else {
                None::<Team>
            }),
    {
        if self.current.num_player(Team::White) == 0 {
            Some(Team::Black)
        } else if self.current.num_player(Team::Black) == 0 {
            Some(Team::White)
        } else {
            None
        }
    }

    /// The square of the current board at the given index.
    pub fn current_cell_state(&self, idx: &BrdIdx) -> (r: Square)
        requires
            self@.wf(),
            self@.current.in_bounds(*idx),
        ensures
            r == self@.current.sq(*idx),
    {
        let i = self.current.cell_idx(*idx);
        self.current.cell(i)
    }

    /// Set the depth the automated player searches to.
    pub fn set_search_depth(&mut self, search_depth: usize)
        ensures
            final(self)@ == (GameView { search_depth: search_depth as int, ..old(self)@ }),
    {
        self.search_depth = search_depth;
        proof {
            assert(final(self)@ =~= (GameView {
                search_depth: search_depth as int,
                ..old(self)@
            }));
        }
    }

    /// Mark the given square, which must be occupied, as selected.
    pub fn set_selected(&mut self, idx: &BrdIdx)
        requires
            old(self)@.wf(),
            old(self)@.current.in_bounds(*idx),
            old(self)@.current.sq(*idx).state == SquareState::Occupied,
        ensures
            final(self)@ == (GameView { selected_piece: Some(*idx), ..old(self)@ }),
    {
        self.selected_piece = Some(*idx);
        proof {
            assert(final(self)@ =~= (GameView { selected_piece: Some(*idx), ..old(self)@ }));
        }
    }

    /// Set the chance of a perfect move, out of
    /// [`crate::comp::PERFECT_CHANCE_SCALE`].
    pub fn set_perfect_chance(&mut self, new_chance: u32)
        ensures
            final(self)@ == (GameView { perfect_chance: new_chance, ..old(self)@ }),
    {
        self.perfect_chance = new_chance;
        proof {
            assert(final(self)@ =~= (GameView { perfect_chance: new_chance, ..old(self)@ }));
        }
    }

    /// Clear the selected square.
    pub fn clear_selected(&mut self)
        ensures
            final(self)@ == (GameView { selected_piece: None::<BrdIdx>, ..old(self)@ }),
    {
        self.selected_piece = None;
        proof {
            assert(final(self)@ =~= (GameView { selected_piece: None::<BrdIdx>, ..old(self)@ }));
        }
    }

    /// Attempt a move from `from` to `to` on the current board.
    ///
    /// The legality check's outcome is returned in every case. If the move
    /// is allowed it is applied — as a step when the columns are adjacent,
    /// as a capturing jump otherwise — and the previous board is pushed onto
    /// the history; an illegal move leaves the game untouched.
    pub fn make_move(&mut self, from: BrdIdx, to: BrdIdx) -> (r: Moveable)
        requires
            old(self)@.wf(),
        ensures
            final(self)@.wf(),
            r == old(self)@.current.can_move_check(from, to),
            r != Moveable::Allowed ==> final(self)@ == old(self)@,
            r == Moveable::Allowed ==> final(self)@.previous == old(self)@.previous.push(
                old(self)@.current,
            ) && final(self)@.current == (if to.col - from.col == 1 || to.col - from.col == -1 {
                old(self)@.current.apply_move_v(from, to)
            } else {
                old(self)@.current.apply_jump_v(from, to)
            }) && final(self)@.selected_piece == old(self)@.selected_piece
                && final(self)@.search_depth == old(self)@.search_depth
                && final(self)@.perfect_chance == old(self)@.perfect_chance,
    {
        let able = self.current.can_move(from, to);

        if let Moveable::Allowed = able {
            proof {
                self.current.lemma_coords_fit(from);
                self.current.lemma_coords_fit(to);
            }
            let diffs = Board::idx_diffs(from, to);
            if diffs.1 == 1 || diffs.1 == -1 {
                self.execute_move(from, to);
            } else {
                self.execute_jump(from, to);
            }
        } else {
            proof {
                assert(final(self)@ =~= old(self)@);
            }
        }

        able
    }

    /// Apply a step move to the current board and push the old board onto
    /// the history. The caller must already have confirmed the move is
    /// allowed.
    pub fn execute_move(&mut self, from: BrdIdx, to: BrdIdx)
        requires
            old(self)@.wf(),
            old(self)@.current.can_move_check(from, to) == Moveable::Allowed,
        ensures
            final(self)@.wf(),
            final(self)@.current == old(self)@.current.apply_move_v(from, to),
            final(self)@.previous == old(self)@.previous.push(old(self)@.current),
            final(self)@.selected_piece == old(self)@.selected_piece,
            final(self)@.search_depth == old(self)@.search_depth,
            final(self)@.last_node_count == old(self)@.last_node_count,
            final(self)@.perfect_chance == old(self)@.perfect_chance,
    {
        let next = self.current.apply_move(from, to);
        self.push_new_board(next);
    }

    /// Apply a capturing jump to the current board and push the old board
    /// onto the history. The caller must already have confirmed the move is
    /// allowed and covers a jump's distance.
    pub fn execute_jump(&mut self, from: BrdIdx, to: BrdIdx)
        requires
            old(self)@.wf(),
            old(self)@.current.can_move_check(from, to) == Moveable::Allowed,
            to.row - from.row == 2 || to.row - from.row == -2,
            to.col - from.col == 2 || to.col - from.col == -2,
        ensures
            final(self)@.wf(),
            final(self)@.current == old(self)@.current.apply_jump_v(from, to),
            final(self)@.previous == old(self)@.previous.push(old(self)@.current),
            final(self)@.selected_piece == old(self)@.selected_piece,
            final(self)@.search_depth == old(self)@.search_depth,
            final(self)@.last_node_count == old(self)@.last_node_count,
            final(self)@.perfect_chance == old(self)@.perfect_chance,
    {
        let next = self.current.apply_jump(from, to);
        self.push_new_board(next);
    }

    /// Push the current board into the history and make the given board
    /// current.
    pub fn push_new_board(&mut self, board: Board)
        ensures
            final(self)@ == (GameView {
                current: board@,
                previous: old(self)@.previous.push(old(self)@.current),
                ..old(self)@
            }),
    {
        let snapshot = self.current.clone();
        self.previous_boards.push(snapshot);
        self.set_current(board);
        proof {
            assert(final(self)@.previous =~= old(self)@.previous.push(old(self)@.current));
            assert(final(self)@ =~= (GameView {
                current: final(self)@.current,
                previous: final(self)@.previous,
                ..old(self)@
            }));
        }
    }

    /// Make the given board current.
    pub fn set_current(&mut self, board: Board)
        ensures
            final(self)@ == (GameView { current: board@, ..old(self)@ }),
    {
        self.current = board;
        proof {
            assert(final(self)@ =~= (GameView { current: board@, ..old(self)@ }));
        }
    }

    /// Let the automated player take the current turn.
    ///
    /// A player configured with the game's search depth and perfect-move
    /// chance decides a move for the side to move; the chosen board becomes
    /// current and the old board is pushed onto the history. When no move is
    /// possible — the search depth is zero or the side to move has no legal
    /// move — the turn simply passes: the same position is re-pushed with
    /// the other side to move.
    pub fn ai_move(&mut self)
        requires
            old(self)@.wf(),
        ensures
            final(self)@.wf(),
            final(self)@.previous == old(self)@.previous.push(old(self)@.current),
            final(self)@.selected_piece == old(self)@.selected_piece,
            final(self)@.search_depth == old(self)@.search_depth,
            final(self)@.perfect_chance == old(self)@.perfect_chance,
            final(self)@.last_node_count == tree_size(
                old(self)@.current,
                old(self)@.search_depth as nat,
            ) - 1,
            old(self)@.search_depth == 0 || available_moves(old(self)@.current).len() == 0
                ==> final(self)@.current == (BoardView {
                turn: old(self)@.current.turn.spec_opponent(),
                ..old(self)@.current
            }),
            old(self)@.search_depth > 0 && available_moves(old(self)@.current).len() > 0
                ==> exists|k: int|
                0 <= k < available_moves(old(self)@.current).len() && final(self)@.current
                    == apply_mv(
                    old(self)@.current,
                    #[trigger] available_moves(old(self)@.current)[k],
                ),
            old(self)@.perfect_chance >= crate::comp::PERFECT_CHANCE_SCALE && old(
                self,
            )@.search_depth > 0 && available_moves(old(self)@.current).len() > 0
                ==> minimax_value(final(self)@.current, (old(self)@.search_depth - 1) as nat)
                == minimax_value(old(self)@.current, old(self)@.search_depth as nat),
    {
        let mut comp = Computer::new(
            self.search_depth,
            self.current.current_turn(),
            self.perfect_chance,
        );

        let new_brd = comp.get_move(self.current.clone());

        self.last_node_count = comp.last_node_count;

        match new_brd {
            Some(brd) => {
                self.push_new_board(brd);
            },
            None => {
                // no possible moves: pass the turn on the same position
                let mut flipped = self.current.clone();
                flipped.set_turn(self.current.current_turn().opponent());
                proof {
                    assert(flipped@ =~= (BoardView {
                        turn: old(self)@.current.turn.spec_opponent(),
                        ..old(self)@.current
                    }));
                }
                self.push_new_board(flipped);
            },
        }
    }
}

} // verus!
