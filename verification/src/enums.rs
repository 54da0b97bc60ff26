//! The small closed enumerations of the game: teams, piece strengths,
//! square states, move kinds, and the outcome of a legality check.

use vstd::prelude::*;

verus! {

/// Whether a candidate transition is a plain diagonal step or a capturing jump.
#[derive(Clone, Copy, Debug, PartialEq, Eq, Structural)]
pub enum MoveType {
    Move,
    Jump,
}

/// The two sides. Black moves toward decreasing rows, White toward increasing rows.
#[derive(Clone, Copy, Debug, PartialEq, Eq, Structural)]
pub enum Team {
    Black,
    White,
}

impl Team {
    /// The other side; flipping twice gives the side back.
    pub open spec fn spec_opponent(self) -> Team {
        match self {
            Team::White => Team::Black,
            Team::Black => Team::White,
        }
    }

    /// The opposing team.
    pub fn opponent(&self) -> (r: Team)
        ensures
            r == self.spec_opponent(),
    {
        match self {
            Team::White => Team::Black,
            Team::Black => Team::White,
        }
    }

    /// Flipping the turn is an involution: the opponent's opponent is the team itself.
    pub proof fn lemma_opponent_involutive(self)
        ensures
            self.spec_opponent().spec_opponent() == self,
    {
    }
}

/// Piece strength: men move only forward, kings in all four diagonal directions.
#[derive(Clone, Copy, Debug, PartialEq, Eq, Structural)]
pub enum Strength {
    Man,
    King,
}

/// State of a board square. Unplayable squares are the off-lattice squares of
/// the checkerboard pattern; they are fixed at construction and never change.
#[derive(Clone, Copy, Debug, PartialEq, Eq, Structural)]
pub enum SquareState {
    Empty,
    Occupied,
    Unplayable,
}

/// Outcome of a move-legality check. `Allowed` means the transition is legal;
/// every other variant names the first rule the candidate move broke.
#[derive(Clone, Copy, Debug, PartialEq, Eq, Structural)]
pub enum Moveable {
    Allowed,
    UnoccupiedSrc,
    OccupiedDest,
    OutOfBounds,
    Unplayable,
    WrongTeamSrc,
    IllegalTrajectory,
    NoJumpablePiece,
    JumpingSameTeam,
}

} // verus!
