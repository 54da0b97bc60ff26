//! A checkers/draughts engine: board representation, move legality,
//! move application, and a bounded-depth minimax player.
//!
//! The board is a flat vector of squares with a checkerboard pattern of
//! playable cells. Legality of a candidate move is decided by
//! [`board::Board::can_move`]; all legal moves for the side to move are
//! enumerated by [`comp::Computer::available_turns`]; and
//! [`comp::Computer::get_move`] selects a move by building a game tree to a
//! fixed depth, scoring leaves by material count, and propagating scores by
//! minimax.

pub mod board;
pub mod comp;
pub mod enums;
pub mod game;

pub use board::Board;
pub use board::BrdIdx;
pub use board::Direction;
pub use board::Piece;
pub use board::Square;
pub use comp::BoardNode;
pub use comp::Computer;
pub use comp::Move;
pub use enums::Moveable;
pub use enums::MoveType;
pub use enums::SquareState;
pub use enums::Strength;
pub use enums::Team;
pub use game::Game;
