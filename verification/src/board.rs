//! The checkers board: a flat vector of squares with a checkerboard pattern
//! of playable cells, move-legality checks, and move application.
//!
//! A board is modelled in specifications by [`BoardView`]: the sequence of
//! squares together with the grid extents and the side to move. Every public
//! operation is specified against that model.

use vstd::prelude::*;

use crate::enums::Moveable;
use crate::enums::SquareState;
use crate::enums::Strength;
use crate::enums::Team;

verus! {

/// Standard width of a checkers board.
pub const STD_WIDTH: usize = 8;
/// Standard height of a checkers board.
pub const STD_HEIGHT: usize = 8;

/// Game piece given by its team and strength (man or king).
#[derive(Clone, Copy, Debug, PartialEq, Eq, Structural)]
pub struct Piece {
    pub team: Team,
    pub strength: Strength,
}

impl Piece {
    /// Form a piece from a team and a strength.
    pub fn new(team: Team, strength: Strength) -> (r: Piece)
        ensures
            r == (Piece { team, strength }),
    {
        Piece { team, strength }
    }
}

/// Board square given by a state and a possible occupying piece.
///
/// A square is well formed when it holds a piece exactly when its state is
/// `Occupied`; see [`square_wf`].
#[derive(Clone, Copy, Debug, PartialEq, Eq)]
pub struct Square {
    /// Game piece if the square is occupied.
    pub occupant: Option<Piece>,
    /// Whether the square is empty, occupied, or off the playable lattice.
    pub state: SquareState,
}

/// The square invariant: a piece is present exactly on `Occupied` squares.
pub open spec fn square_wf(sq: Square) -> bool {
    (sq.state == SquareState::Occupied) <==> sq.occupant is Some
}

/// The well-formed empty square.
pub open spec fn empty_square() -> Square {
    Square { occupant: None, state: SquareState::Empty }
}

/// The well-formed unplayable square.
pub open spec fn unplayable_square() -> Square {
    Square { occupant: None, state: SquareState::Unplayable }
}

/// The well-formed occupied square holding the given piece.
pub open spec fn piece_square(team: Team, strength: Strength) -> Square {
    Square { occupant: Some(Piece { team, strength }), state: SquareState::Occupied }
}

impl Square {
    /// Form a square from a state and an occupant.
    pub fn new(state: SquareState, occupant: Option<Piece>) -> (r: Square)
        ensures
            r == (Square { occupant, state }),
    {
        Square { occupant, state }
    }

    /// A well-formed occupied square holding a piece of the given team and strength.
    pub fn pc(team: Team, strength: Strength) -> (r: Square)
        ensures
            r == piece_square(team, strength),
    {
        Square { occupant: Some(Piece::new(team, strength)), state: SquareState::Occupied }
    }

    /// A well-formed empty square.
    pub fn empty() -> (r: Square)
        ensures
            r == empty_square(),
    {
        Square { occupant: None, state: SquareState::Empty }
    }

    /// A well-formed unplayable square.
    pub fn unplay() -> (r: Square)
        ensures
            r == unplayable_square(),
    {
        Square { occupant: None, state: SquareState::Unplayable }
    }
}

/// Row/column index identifying one board square.
#[derive(Clone, Copy, Debug, PartialEq, Eq, Structural)]
pub struct BrdIdx {
    pub row: usize,
    pub col: usize,
}

impl BrdIdx {
    /// Form an index from a row and a column.
    pub fn from(row: usize, col: usize) -> (r: BrdIdx)
        ensures
            r == (BrdIdx { row, col }),
    {
        BrdIdx { row, col }
    }
}

/// The four diagonal neighbours of a square, by compass direction.
///
/// `None` marks a direction that falls outside the grid.
#[derive(Clone, Copy, Debug, PartialEq, Eq)]
pub struct Direction<T: Clone + Copy> {
    /// North west: toward smaller rows and smaller columns.
    pub nw: Option<T>,
    /// North east: toward smaller rows and larger columns.
    pub ne: Option<T>,
    /// South east: toward larger rows and larger columns.
    pub se: Option<T>,
    /// South west: toward larger rows and smaller columns.
    pub sw: Option<T>,
}

impl<T: Clone + Copy> Direction<T> {
    /// A direction record with no neighbours.
    pub fn empty() -> (r: Direction<T>)
        ensures
            r.nw is None && r.ne is None && r.se is None && r.sw is None,
    {
        Direction { nw: None, ne: None, se: None, sw: None }
    }
}

/// Whether a cell at the given row and column is on the playable lattice.
///
/// The playable squares are those whose row and column have opposite parity,
/// starting from an unplayable square in the top-left corner.
pub open spec fn playable_cell(row: int, col: int) -> bool {
    (row + col) % 2 == 1
}

/// Mathematical model of a board: the flat sequence of squares in row-major
/// order, the grid extents, and the side to move.
#[verifier::ext_equal]
pub ghost struct BoardView {
    pub cells: Seq<Square>,
    pub width: int,
    pub height: int,
    pub turn: Team,
}

impl BoardView {
    /// A board is well formed when the cell sequence matches the extents,
    /// every square satisfies the square invariant, and the unplayable
    /// squares sit exactly on the even-parity cells of the checkerboard
    /// pattern laid out at construction.
    pub open spec fn wf(self) -> bool {
        &&& 1 <= self.width
        &&& 1 <= self.height
        &&& self.cells.len() == self.width * self.height
        &&& self.cells.len() <= isize::MAX as int
        &&& forall|i: int|
            0 <= i < self.cells.len() ==> square_wf(#[trigger] self.cells[i])
        &&& forall|i: int|
            0 <= i < self.cells.len() ==> ((#[trigger] self.cells[i]).state
                == SquareState::Unplayable <==> !playable_cell(i / self.width, i % self.width))
    }

    /// Whether a row/column index lies inside the grid.
    pub open spec fn in_bounds(self, idx: BrdIdx) -> bool {
        idx.row < self.height && idx.col < self.width
    }

    /// The flat index of a row/column index.
    pub open spec fn flat(self, idx: BrdIdx) -> int {
        idx.row * self.width + idx.col
    }

    /// The square at a row/column index.
    pub open spec fn sq(self, idx: BrdIdx) -> Square {
        self.cells[self.flat(idx)]
    }

    /// The row/column index of a flat index.
    pub open spec fn bidx(self, i: int) -> BrdIdx {
        BrdIdx { row: (i / self.width) as usize, col: (i % self.width) as usize }
    }
}

/// Outcome of testing a jumped-over square: jumping an opponent's piece is
/// allowed, jumping one's own piece is not. A square without an occupant
/// cannot arise here on a well-formed board.
pub open spec fn validate_jumpee_check(jumpee: Square, from_occ: Piece) -> Moveable {
    match jumpee.occupant {
        Some(p) => if from_occ.team.spec_opponent() == p.team {
            Moveable::Allowed
        } else {
            Moveable::JumpingSameTeam
        },
        None => Moveable::JumpingSameTeam,
    }
}

/// Whether a square holds a piece of the given team.
pub open spec fn occupied_by(sq: Square, team: Team) -> bool {
    match sq.occupant {
        Some(p) => sq.state == SquareState::Occupied && p.team == team,
        None => false,
    }
}

/// Whether a square holds a piece of either team.
pub open spec fn occupied_square(sq: Square) -> bool {
    sq.state == SquareState::Occupied
}

/// The number of squares among the first `n` that hold a piece of `team`.
pub open spec fn team_count_to(cells: Seq<Square>, team: Team, n: int) -> int
    decreases n,
{
    if n <= 0 {
        0
    } else {
        team_count_to(cells, team, n - 1) + if occupied_by(cells[n - 1], team) {
            1int
        } else {
            0int
        }
    }
}

/// The number of squares among the first `n` that hold any piece.
pub open spec fn piece_count_to(cells: Seq<Square>, n: int) -> int
    decreases n,
{
    if n <= 0 {
        0
    } else {
        piece_count_to(cells, n - 1) + if occupied_square(cells[n - 1]) {
            1int
        } else {
            0int
        }
    }
}

/// Replacing one square changes a prefix count exactly by the difference of
/// the contributions of the new and old squares.
pub proof fn lemma_count_update(cells: Seq<Square>, team: Team, j: int, s: Square, n: int)
    requires
        0 <= j < n <= cells.len(),
    ensures
        team_count_to(cells.update(j, s), team, n) == team_count_to(cells, team, n) - (
        if occupied_by(cells[j], team) {
            1int
        } else {
            0int
        }) + (if occupied_by(s, team) {
            1int
        } else {
            0int
        }),
        piece_count_to(cells.update(j, s), n) == piece_count_to(cells, n) - (if occupied_square(
            cells[j],
        ) {
            1int
        } else {
            0int
        }) + (if occupied_square(s) {
            1int
        } else {
            0int
        }),
    decreases n,
{
    if j == n - 1 {
        lemma_count_prefix_agree(cells, cells.update(j, s), team, n - 1);
    } else {
        lemma_count_update(cells, team, j, s, n - 1);
    }
}

/// Prefix counts agree on sequences that agree on the prefix.
pub proof fn lemma_count_prefix_agree(a: Seq<Square>, b: Seq<Square>, team: Team, n: int)
    requires
        0 <= n <= a.len(),
        n <= b.len(),
        forall|i: int| 0 <= i < n ==> a[i] == b[i],
    ensures
        team_count_to(a, team, n) == team_count_to(b, team, n),
        piece_count_to(a, n) == piece_count_to(b, n),
    decreases n,
{
    if n > 0 {
        lemma_count_prefix_agree(a, b, team, n - 1);
    }
}

/// A zero prefix count means no square of the prefix holds such a piece.
pub proof fn lemma_count_zero(cells: Seq<Square>, team: Team, n: int)
    requires
        0 <= n,
        team_count_to(cells, team, n) == 0,
    ensures
        forall|j: int| 0 <= j < n ==> !occupied_by(#[trigger] cells[j], team),
    decreases n,
{
    if n > 0 {
        lemma_count_bounds(cells, team, n - 1);
        lemma_count_zero(cells, team, n - 1);
    }
}

/// A prefix count lies between zero and the prefix length.
pub proof fn lemma_count_bounds(cells: Seq<Square>, team: Team, n: int)
    requires
        0 <= n,
    ensures
        0 <= team_count_to(cells, team, n) <= n,
        0 <= piece_count_to(cells, n) <= n,
    decreases n,
{
    if n > 0 {
        lemma_count_bounds(cells, team, n - 1);
    }
}

impl BoardView {
    /// Flat index of the square jumped over: the midpoint of `from` and `to`.
    ///
    /// Meaningful when the two indices are a jump apart, two rows and two
    /// columns.
    pub open spec fn jumpee_flat(self, from: BrdIdx, to: BrdIdx) -> int {
        (from.row + (to.row - from.row) / 2) * self.width + (from.col + (to.col - from.col) / 2)
    }

    /// Trajectory check for a man belonging to the side to move: one row
    /// forward for a step, two rows forward over an opposing piece for a
    /// jump. Forward is toward larger rows for White and smaller for Black.
    pub open spec fn man_move_check(self, from: BrdIdx, to: BrdIdx, pc: Piece) -> Moveable {
        let scale: int = if self.turn == Team::Black {
            -1
        } else {
            1
        };
        let dr = to.row - from.row;
        let dc = to.col - from.col;
        if dr == scale {
            if dc == 1 || dc == -1 {
                Moveable::Allowed
            } else {
                Moveable::IllegalTrajectory
            }
        } else if dr == 2 * scale {
            if dc == 2 || dc == -2 {
                let jumpee = self.cells[self.jumpee_flat(from, to)];
                match jumpee.state {
                    SquareState::Occupied => validate_jumpee_check(jumpee, pc),
                    _ => Moveable::NoJumpablePiece,
                }
            } else {
                Moveable::IllegalTrajectory
            }
        } else {
            Moveable::IllegalTrajectory
        }
    }

    /// Trajectory check for a king: as for a man, but in any of the four
    /// diagonal directions.
    pub open spec fn king_move_check(self, from: BrdIdx, to: BrdIdx, pc: Piece) -> Moveable {
        let dr = to.row - from.row;
        let dc = to.col - from.col;
        if dr == 1 || dr == -1 {
            if dc == 1 || dc == -1 {
                Moveable::Allowed
            } else {
                Moveable::IllegalTrajectory
            }
        } else if dr == 2 || dr == -2 {
            if dc == 2 || dc == -2 {
                let jumpee = self.cells[self.jumpee_flat(from, to)];
                match jumpee.state {
                    SquareState::Occupied => validate_jumpee_check(jumpee, pc),
                    _ => Moveable::NoJumpablePiece,
                }
            } else {
                Moveable::IllegalTrajectory
            }
        } else {
            Moveable::IllegalTrajectory
        }
    }

    /// The full legality check, in the precedence order of the rules: bounds,
    /// source occupancy, turn ownership, trajectory by piece strength, and
    /// finally the destination square.
    pub open spec fn can_move_check(self, from: BrdIdx, to: BrdIdx) -> Moveable {
        if !self.in_bounds(from) || !self.in_bounds(to) {
            Moveable::OutOfBounds
        } else {
            let from_square = self.sq(from);
            match from_square.state {
                SquareState::Empty => Moveable::UnoccupiedSrc,
                SquareState::Unplayable => Moveable::Unplayable,
                SquareState::Occupied => match from_square.occupant {
                    // cannot arise on a well-formed board
                    None => Moveable::UnoccupiedSrc,
                    Some(occ) => if occ.team != self.turn {
                        Moveable::WrongTeamSrc
                    } else {
                        let traj = match occ.strength {
                            Strength::Man => self.man_move_check(from, to, occ),
                            Strength::King => self.king_move_check(from, to, occ),
                        };
                        if traj != Moveable::Allowed {
                            traj
                        } else {
                            match self.sq(to).state {
                                SquareState::Empty => Moveable::Allowed,
                                SquareState::Unplayable => Moveable::Unplayable,
                                SquareState::Occupied => Moveable::OccupiedDest,
                            }
                        }
                    },
                },
            }
        }
    }

    /// The number of pieces of `team` on the board.
    pub open spec fn team_count(self, team: Team) -> int {
        team_count_to(self.cells, team, self.cells.len() as int)
    }

    /// The number of pieces on the board.
    pub open spec fn piece_count(self) -> int {
        piece_count_to(self.cells, self.cells.len() as int)
    }

    /// The material score: Black pieces minus White pieces. Positive favours
    /// Black, negative favours White.
    pub open spec fn score_v(self) -> int {
        self.team_count(Team::Black) - self.team_count(Team::White)
    }

    /// The board after relocating the occupant of `from` to `to`: the
    /// destination takes the source square, the source becomes empty, and the
    /// turn passes to the other side.
    pub open spec fn apply_move_v(self, from: BrdIdx, to: BrdIdx) -> BoardView {
        BoardView {
            cells: self.cells.update(self.flat(to), self.cells[self.flat(from)]).update(
                self.flat(from),
                empty_square(),
            ),
            turn: self.turn.spec_opponent(),
            ..self
        }
    }

    /// The board after a jump: as [`BoardView::apply_move_v`], and the jumped
    /// square is cleared as well.
    pub open spec fn apply_jump_v(self, from: BrdIdx, to: BrdIdx) -> BoardView {
        BoardView {
            cells: self.cells.update(self.flat(to), self.cells[self.flat(from)]).update(
                self.flat(from),
                empty_square(),
            ).update(self.jumpee_flat(from, to), empty_square()),
            turn: self.turn.spec_opponent(),
            ..self
        }
    }
}

impl BoardView {
    /// The flat indices of the up-to-four diagonally adjacent squares of
    /// `idx`, in the order north-west, north-east, south-west, south-east,
    /// omitting those outside the grid.
    pub open spec fn adjacent_cells(self, idx: BrdIdx) -> Seq<usize> {
        let nw = if idx.row > 0 && idx.col > 0 {
            seq![(((idx.row - 1) * self.width) + (idx.col - 1)) as usize]
        } else {
            Seq::empty()
        };
        let ne = if idx.row > 0 && idx.col + 1 < self.width {
            seq![(((idx.row - 1) * self.width) + (idx.col + 1)) as usize]
        } else {
            Seq::empty()
        };
        let sw = if idx.row + 1 < self.height && idx.col > 0 {
            seq![(((idx.row + 1) * self.width) + (idx.col - 1)) as usize]
        } else {
            Seq::empty()
        };
        let se = if idx.row + 1 < self.height && idx.col + 1 < self.width {
            seq![(((idx.row + 1) * self.width) + (idx.col + 1)) as usize]
        } else {
            Seq::empty()
        };
        nw + ne + sw + se
    }

    /// The flat indices of the up-to-four squares a jump away from `idx`, in
    /// the order north-west, north-east, south-west, south-east, omitting
    /// those outside the grid.
    pub open spec fn jumpable_cells(self, idx: BrdIdx) -> Seq<usize> {
        let nw = if idx.row > 1 && idx.col > 1 {
            seq![(((idx.row - 2) * self.width) + (idx.col - 2)) as usize]
        } else {
            Seq::empty()
        };
        let ne = if idx.row > 1 && idx.col + 2 < self.width {
            seq![(((idx.row - 2) * self.width) + (idx.col + 2)) as usize]
        } else {
            Seq::empty()
        };
        let sw = if idx.row + 2 < self.height && idx.col > 1 {
            seq![(((idx.row + 2) * self.width) + (idx.col - 2)) as usize]
        } else {
            Seq::empty()
        };
        let se = if idx.row + 2 < self.height && idx.col + 2 < self.width {
            seq![(((idx.row + 2) * self.width) + (idx.col + 2)) as usize]
        } else {
            Seq::empty()
        };
        nw + ne + sw + se
    }

    /// Whether a candidate destination lies in the forward direction of the
    /// given player relative to `idx`: smaller rows for Black, larger for
    /// White.
    pub open spec fn forward_keep(self, idx: BrdIdx, player: Team, u: usize) -> bool {
        match player {
            Team::Black => u as int / self.width < idx.row,
            Team::White => u as int / self.width > idx.row,
        }
    }

    /// The prefix of length `n` of `s`, filtered for the forward direction of
    /// `player`, keeping order.
    pub open spec fn filter_forward_to(
        self,
        idx: BrdIdx,
        player: Team,
        s: Seq<usize>,
        n: int,
    ) -> Seq<usize>
        decreases n,
    {
        if n <= 0 {
            Seq::empty()
        } else {
            self.filter_forward_to(idx, player, s, n - 1) + if self.forward_keep(
                idx,
                player,
                s[n - 1],
            ) {
                seq![s[n - 1]]
            } else {
                Seq::empty()
            }
        }
    }

    /// `s` filtered for the forward direction of `player`, keeping order.
    pub open spec fn filter_forward(self, idx: BrdIdx, player: Team, s: Seq<usize>) -> Seq<usize> {
        self.filter_forward_to(idx, player, s, s.len() as int)
    }
}

/// Every entry of [`BoardView::adjacent_cells`] is a valid flat index one row
/// and one column away from `idx`.
pub proof fn lemma_adjacent_cells_elements(bv: BoardView, idx: BrdIdx)
    requires
        bv.wf(),
        bv.in_bounds(idx),
    ensures
        forall|k: int|
            0 <= k < bv.adjacent_cells(idx).len() ==> {
                let u = #[trigger] bv.adjacent_cells(idx)[k];
                &&& 0 <= u < bv.cells.len()
                &&& bv.in_bounds(bv.bidx(u as int))
                &&& bv.flat(bv.bidx(u as int)) == u
                &&& (bv.bidx(u as int).row - idx.row == 1 || bv.bidx(u as int).row - idx.row
                    == -1)
                &&& (bv.bidx(u as int).col - idx.col == 1 || bv.bidx(u as int).col - idx.col
                    == -1)
            },
{
    vstd::arithmetic::mul::lemma_mul_is_commutative(bv.width, bv.height);
    if idx.row > 0 && idx.col > 0 {
        lemma_flat_in_range(bv.width, bv.height, idx.row - 1, idx.col - 1);
        lemma_flat_roundtrip(bv.width, idx.row - 1, idx.col - 1);
    }
    if idx.row > 0 && idx.col + 1 < bv.width {
        lemma_flat_in_range(bv.width, bv.height, idx.row - 1, idx.col + 1);
        lemma_flat_roundtrip(bv.width, idx.row - 1, idx.col + 1);
    }
    if idx.row + 1 < bv.height && idx.col > 0 {
        lemma_flat_in_range(bv.width, bv.height, idx.row + 1, idx.col - 1);
        lemma_flat_roundtrip(bv.width, idx.row + 1, idx.col - 1);
    }
    if idx.row + 1 < bv.height && idx.col + 1 < bv.width {
        lemma_flat_in_range(bv.width, bv.height, idx.row + 1, idx.col + 1);
        lemma_flat_roundtrip(bv.width, idx.row + 1, idx.col + 1);
    }
}

/// Every entry of [`BoardView::jumpable_cells`] is a valid flat index two
/// rows and two columns away from `idx`.
pub proof fn lemma_jumpable_cells_elements(bv: BoardView, idx: BrdIdx)
    requires
        bv.wf(),
        bv.in_bounds(idx),
    ensures
        forall|k: int|
            0 <= k < bv.jumpable_cells(idx).len() ==> {
                let u = #[trigger] bv.jumpable_cells(idx)[k];
                &&& 0 <= u < bv.cells.len()
                &&& bv.in_bounds(bv.bidx(u as int))
                &&& bv.flat(bv.bidx(u as int)) == u
                &&& (bv.bidx(u as int).row - idx.row == 2 || bv.bidx(u as int).row - idx.row
                    == -2)
                &&& (bv.bidx(u as int).col - idx.col == 2 || bv.bidx(u as int).col - idx.col
                    == -2)
            },
{
    vstd::arithmetic::mul::lemma_mul_is_commutative(bv.width, bv.height);
    if idx.row > 1 && idx.col > 1 {
        lemma_flat_in_range(bv.width, bv.height, idx.row - 2, idx.col - 2);
        lemma_flat_roundtrip(bv.width, idx.row - 2, idx.col - 2);
    }
    if idx.row > 1 && idx.col + 2 < bv.width {
        lemma_flat_in_range(bv.width, bv.height, idx.row - 2, idx.col + 2);
        lemma_flat_roundtrip(bv.width, idx.row - 2, idx.col + 2);
    }
    if idx.row + 2 < bv.height && idx.col > 1 {
        lemma_flat_in_range(bv.width, bv.height, idx.row + 2, idx.col - 2);
        lemma_flat_roundtrip(bv.width, idx.row + 2, idx.col - 2);
    }
    if idx.row + 2 < bv.height && idx.col + 2 < bv.width {
        lemma_flat_in_range(bv.width, bv.height, idx.row + 2, idx.col + 2);
        lemma_flat_roundtrip(bv.width, idx.row + 2, idx.col + 2);
    }
}

/// The square at flat index `i` after the game initialiser has run: the
/// first `piece_rows` rows of the playable lattice get White men, the last
/// `piece_rows` rows get Black men, the playable middle is cleared, and
/// unplayable squares are untouched.
pub open spec fn init_cell(bv: BoardView, piece_rows: int, i: int) -> Square {
    let sq = bv.cells[i];
    if sq.state == SquareState::Empty || sq.state == SquareState::Occupied {
        if i / bv.width < piece_rows {
            piece_square(Team::White, Strength::Man)
        } else if i / bv.width >= bv.height - piece_rows {
            piece_square(Team::Black, Strength::Man)
        } else {
            empty_square()
        }
    } else {
        sq
    }
}

/// The square laid out at flat index `i` by the board constructor: empty on
/// playable cells, unplayable elsewhere.
pub open spec fn starting_cell(width: int, i: int) -> Square {
    if playable_cell(i / width, i % width) {
        empty_square()
    } else {
        unplayable_square()
    }
}

/// A flat index formed from an in-bounds row and column is itself in range.
pub proof fn lemma_flat_in_range(w: int, h: int, r: int, c: int)
    requires
        0 <= r < h,
        0 <= c < w,
    ensures
        0 <= r * w + c < h * w,
{
    assert(0 <= r * w + c < h * w) by (nonlinear_arith)
        requires
            0 <= r < h,
            0 <= c < w,
    ;
}

/// Splitting a flat index back into a row and a column recovers the pair it
/// was formed from.
pub proof fn lemma_flat_roundtrip(w: int, r: int, c: int)
    requires
        1 <= w,
        0 <= r,
        0 <= c < w,
    ensures
        (r * w + c) / w == r,
        (r * w + c) % w == c,
{
    vstd::arithmetic::div_mod::lemma_fundamental_div_mod_converse(r * w + c, w, r, c);
}

/// A flat index below `w * h` names a row below `h` and a column below `w`.
pub proof fn lemma_index_bounds(w: int, h: int, i: int)
    requires
        1 <= w,
        1 <= h,
        0 <= i < w * h,
    ensures
        0 <= i / w < h,
        0 <= i % w < w,
        (i / w) * w + (i % w) == i,
{
    vstd::arithmetic::div_mod::lemma_fundamental_div_mod(i, w);
    assert(0 <= i % w < w) by {
        vstd::arithmetic::div_mod::lemma_mod_bound(i, w);
    }
    assert(0 <= i / w) by {
        vstd::arithmetic::div_mod::lemma_div_pos_is_pos(i, w);
    }
    vstd::arithmetic::mul::lemma_mul_is_commutative(w, i / w);
    assert(i / w < h) by (nonlinear_arith)
        requires
            1 <= w,
            0 <= i < w * h,
            i == (i / w) * w + (i % w),
            0 <= i % w < w,
            0 <= i / w,
    ;
}

///////////////
//   BOARD
///////////////

/// Single state of a checkers board.
pub struct Board {
    /// Flat backing vector of board squares in row-major order.
    cells: Vec<Square>,
    width: usize,
    height: usize,
    current_turn: Team,
}

impl View for Board {
    type V = BoardView;

    closed spec fn view(&self) -> BoardView {
        BoardView {
            cells: self.cells@,
            width: self.width as int,
            height: self.height as int,
            turn: self.current_turn,
        }
    }
}

impl Clone for Board {
    /// Cloning a board preserves its model exactly.
    fn clone(&self) -> (r: Board)
        ensures
            r@ == self@,
    {
        let mut cells: Vec<Square> = Vec::new();
        let mut i: usize = 0;
        while i < self.cells.len()
            invariant
                i <= self.cells.len(),
                cells@ == self.cells@.take(i as int),
            decreases self.cells.len() - i,
        {
            cells.push(self.cells[i]);
            proof {
                assert(cells@ =~= self.cells@.take(i + 1 as int));
            }
            i += 1;
        }
        proof {
            assert(cells@ =~= self.cells@);
        }
        let r = Board {
            cells,
            width: self.width,
            height: self.height,
            current_turn: self.current_turn,
        };
        proof {
            assert(r@ =~= self@);
        }
        r
    }
}

impl Board {
    /// The board width, as recorded in the model.
    pub fn width(&self) -> (r: usize)
        ensures
            r as int == self@.width,
    {
        self.width
    }

    /// The board height, as recorded in the model.
    pub fn height(&self) -> (r: usize)
        ensures
            r as int == self@.height,
    {
        self.height
    }

    /// The side to move.
    pub fn current_turn(&self) -> (r: Team)
        ensures
            r == self@.turn,
    {
        self.current_turn
    }

    /// Replace the side to move, leaving the squares untouched.
    pub fn set_turn(&mut self, team: Team)
        ensures
            final(self)@ == (BoardView { turn: team, ..old(self)@ }),
    {
        self.current_turn = team;
        proof {
            assert(final(self)@ =~= (BoardView { turn: team, ..old(self)@ }));
        }
    }

    /// Get a copy of a board square by flat index.
    pub fn cell(&self, idx: usize) -> (r: Square)
        requires
            idx < self@.cells.len(),
        ensures
            r == self@.cells[idx as int],
    {
        self.cells[idx]
    }

    /// Replace a board square by flat index.
    ///
    /// The new square must satisfy the square invariant and agree with the
    /// checkerboard pattern at its position, so that a well-formed board
    /// stays well formed.
    pub fn set_cell(&mut self, idx: usize, square: Square)
        requires
            old(self)@.wf(),
            idx < old(self)@.cells.len(),
            square_wf(square),
            square.state == SquareState::Unplayable <==> !playable_cell(
                idx as int / old(self)@.width,
                idx as int % old(self)@.width,
            ),
        ensures
            final(self)@ == (BoardView {
                cells: old(self)@.cells.update(idx as int, square),
                ..old(self)@
            }),
            final(self)@.wf(),
    {
        self.cells[idx] = square;
        proof {
            assert(final(self)@ =~= (BoardView {
                cells: old(self)@.cells.update(idx as int, square),
                ..old(self)@
            }));
        }
    }

    /// Get a copy of a board square by row/column index.
    pub fn grid_cell(&self, idx: BrdIdx) -> (r: Square)
        requires
            self@.wf(),
            self@.in_bounds(idx),
        ensures
            r == self@.sq(idx),
    {
        let i = self.cell_idx(idx);
        self.cell(i)
    }

    /// Transform a row/column pair into a flat index into the cell vector.
    pub fn cell_index(&self, row: usize, col: usize) -> (r: usize)
        requires
            self@.wf(),
            row < self@.height,
            col < self@.width,
        ensures
            r as int == row * self@.width + col,
            r < self@.cells.len(),
    {
        proof {
            lemma_flat_in_range(self@.width, self@.height, row as int, col as int);
            vstd::arithmetic::mul::lemma_mul_is_commutative(self@.width, self@.height);
        }
        (row * self.width) + col
    }

    /// Transform a row/column index into a flat index into the cell vector.
    pub fn cell_idx(&self, idx: BrdIdx) -> (r: usize)
        requires
            self@.wf(),
            self@.in_bounds(idx),
        ensures
            r as int == self@.flat(idx),
            r < self@.cells.len(),
    {
        self.cell_index(idx.row, idx.col)
    }

    /// Transform a flat index into a row/column index.
    pub fn board_index(&self, idx: usize) -> (r: BrdIdx)
        requires
            self@.wf(),
            idx < self@.cells.len(),
        ensures
            r == self@.bidx(idx as int),
            self@.in_bounds(r),
            self@.flat(r) == idx,
    {
        proof {
            lemma_index_bounds(self@.width, self@.height, idx as int);
        }
        let row = idx / self.width;
        let col = idx - (row * self.width);
        BrdIdx::from(row, col)
    }

    /// The number of board squares.
    pub fn num_cells(&self) -> (r: usize)
        ensures
            r as int == self@.cells.len(),
    {
        self.cells.len()
    }

    /// The state of a board square by flat index.
    pub fn cell_state(&self, idx: usize) -> (r: SquareState)
        requires
            idx < self@.cells.len(),
        ensures
            r == self@.cells[idx as int].state,
    {
        self.cell(idx).state
    }

    /// Initialise a game board without game pieces: empty squares on the
    /// playable lattice, unplayable squares elsewhere.
    pub fn new(width: usize, height: usize, current_turn: Team) -> (r: Board)
        requires
            1 <= width,
            1 <= height,
            width * height <= isize::MAX as int,
        ensures
            r@.wf(),
            r@.width == width as int,
            r@.height == height as int,
            r@.turn == current_turn,
            forall|i: int|
                0 <= i < r@.cells.len() ==> #[trigger] r@.cells[i] == starting_cell(
                    width as int,
                    i,
                ),
    {
        let mut cells: Vec<Square> = Vec::new();
        let mut row: usize = 0;
        while row < height
            invariant
                1 <= width,
                1 <= height,
                width * height <= isize::MAX as int,
                row <= height,
                cells@.len() == row * width,
                forall|i: int|
                    0 <= i < cells@.len() ==> #[trigger] cells@[i] == starting_cell(
                        width as int,
                        i,
                    ),
            decreases height - row,
        {
            let mut col: usize = 0;
            while col < width
                invariant
                    1 <= width,
                    1 <= height,
                    width * height <= isize::MAX as int,
                    row < height,
                    col <= width,
                    cells@.len() == row * width + col,
                    forall|i: int|
                        0 <= i < cells@.len() ==> #[trigger] cells@[i] == starting_cell(
                            width as int,
                            i,
                        ),
                decreases width - col,
            {
                proof {
                    lemma_flat_in_range(width as int, height as int, row as int, col as int);
                    lemma_flat_roundtrip(width as int, row as int, col as int);
                    vstd::arithmetic::mul::lemma_mul_is_commutative(width as int, height as int);
                    assert(row + col < width * height) by (nonlinear_arith)
                        requires
                            row < height as int,
                            col < width as int,
                            1 <= width as int,
                            1 <= height as int,
                    ;
                }
                if (row + col) % 2 == 1 {
                    cells.push(Square::empty());
                } else {
                    cells.push(Square::unplay());
                }
                col += 1;
            }
            proof {
                assert((row + 1) * width == row * width + width) by (nonlinear_arith);
            }
            row += 1;
        }
        let r = Board { cells, width, height, current_turn };
        proof {
            vstd::arithmetic::mul::lemma_mul_is_commutative(width as int, height as int);
            assert forall|i: int| 0 <= i < r@.cells.len() implies square_wf(#[trigger] r@.cells[i])
                && (r@.cells[i].state == SquareState::Unplayable <==> !playable_cell(
                i / r@.width,
                i % r@.width,
            )) by {
                lemma_index_bounds(r@.width, r@.height, i);
            }
        }
        r
    }

    /// Reset the given board to a starting layout: `piece_rows` rows of
    /// White men at the top, `piece_rows` rows of Black men at the bottom,
    /// and an empty playable middle.
    pub fn init_game(board: Board, piece_rows: usize) -> (r: Board)
        requires
            board@.wf(),
            piece_rows <= board@.height,
        ensures
            r@.wf(),
            r@.width == board@.width,
            r@.height == board@.height,
            r@.turn == board@.turn,
            forall|i: int|
                0 <= i < r@.cells.len() ==> #[trigger] r@.cells[i] == init_cell(
                    board@,
                    piece_rows as int,
                    i,
                ),
    {
        let mut new_board = board.clone();
        let n = board.num_cells();
        let mut i: usize = 0;
        while i < n
            invariant
                board@.wf(),
                piece_rows <= board@.height,
                new_board@.wf(),
                i <= n,
                n as int == board@.cells.len(),
                new_board@.width == board@.width,
                new_board@.height == board@.height,
                new_board@.turn == board@.turn,
                new_board@.cells.len() == board@.cells.len(),
                forall|j: int|
                    0 <= j < i ==> #[trigger] new_board@.cells[j] == init_cell(
                        board@,
                        piece_rows as int,
                        j,
                    ),
                forall|j: int|
                    i <= j < n ==> #[trigger] new_board@.cells[j] == board@.cells[j],
            decreases n - i,
        {
            let idx = board.board_index(i);
            let square = board.cell(i);
            if square.state == SquareState::Empty || square.state == SquareState::Occupied {
                if idx.row < piece_rows {
                    new_board.set_cell(i, Square::pc(Team::White, Strength::Man));
                } else if idx.row >= board.height() - piece_rows {
                    new_board.set_cell(i, Square::pc(Team::Black, Strength::Man));
                } else {
                    new_board.set_cell(i, Square::empty());
                }
            }
            i += 1;
        }
        new_board
    }

    /// The flat indices of the diagonally adjacent squares of `idx`, or
    /// nothing if the given square is unplayable.
    pub fn adjacent_indices(&self, idx: BrdIdx) -> (r: Option<Vec<usize>>)
        requires
            self@.wf(),
            self@.in_bounds(idx),
        ensures
            (r is Some) <==> self@.sq(idx).state != SquareState::Unplayable,
            r matches Some(v) ==> v@ == self@.adjacent_cells(idx),
    {
        if self.cell_state(self.cell_idx(idx)) == SquareState::Unplayable {
            return None;
        }

        let height_idx = self.height - 1;
        let width_idx = self.width - 1;

        let mut cells: Vec<usize> = Vec::new();

        if idx.row > 0 {
            if idx.col > 0 {
                cells.push(self.cell_index(idx.row - 1, idx.col - 1));
            }
            if idx.col < width_idx {
                cells.push(self.cell_index(idx.row - 1, idx.col + 1));
            }
        }

        if idx.row < height_idx {
            if idx.col > 0 {
                cells.push(self.cell_index(idx.row + 1, idx.col - 1));
            }
            if idx.col < width_idx {
                cells.push(self.cell_index(idx.row + 1, idx.col + 1));
            }
        }

        proof {
            assert(cells@ =~= self@.adjacent_cells(idx));
        }
        Some(cells)
    }

    /// The diagonally adjacent squares of `idx` as a compass record, or
    /// nothing if the given square is unplayable.
    pub fn adjacent_dir(&self, idx: BrdIdx) -> (r: Option<Direction<Square>>)
        requires
            self@.wf(),
            self@.in_bounds(idx),
        ensures
            (r is Some) <==> self@.sq(idx).state != SquareState::Unplayable,
            r matches Some(d) ==> {
                &&& d.nw == if idx.row > 0 && idx.col > 0 {
                    Some(
                        self@.sq(BrdIdx { row: (idx.row - 1) as usize, col: (idx.col - 1) as usize }),
                    )
                } else {
                    None::<Square>
                }
                &&& d.ne == if idx.row > 0 && idx.col + 1 < self@.width {
                    Some(
                        self@.sq(BrdIdx { row: (idx.row - 1) as usize, col: (idx.col + 1) as usize }),
                    )
                } else {
                    None::<Square>
                }
                &&& d.sw == if idx.row + 1 < self@.height && idx.col > 0 {
                    Some(
                        self@.sq(BrdIdx { row: (idx.row + 1) as usize, col: (idx.col - 1) as usize }),
                    )
                } else {
                    None::<Square>
                }
                &&& d.se == if idx.row + 1 < self@.height && idx.col + 1 < self@.width {
                    Some(
                        self@.sq(BrdIdx { row: (idx.row + 1) as usize, col: (idx.col + 1) as usize }),
                    )
                } else {
                    None::<Square>
                }
            },
    {
        if self.cell_state(self.cell_idx(idx)) == SquareState::Unplayable {
            return None;
        }

        let height_idx = self.height - 1;
        let width_idx = self.width - 1;

        let mut dir: Direction<Square> = Direction::empty();

        if idx.row > 0 {
            if idx.col > 0 {
                dir.nw = Some(self.cell(self.cell_index(idx.row - 1, idx.col - 1)));
            }
            if idx.col < width_idx {
                dir.ne = Some(self.cell(self.cell_index(idx.row - 1, idx.col + 1)));
            }
        }

        if idx.row < height_idx {
            if idx.col > 0 {
                dir.sw = Some(self.cell(self.cell_index(idx.row + 1, idx.col - 1)));
            }
            if idx.col < width_idx {
                dir.se = Some(self.cell(self.cell_index(idx.row + 1, idx.col + 1)));
            }
        }

        Some(dir)
    }

    /// The flat indices of the squares a jump away from `idx`, or nothing if
    /// the given square is unplayable.
    pub fn jumpable_indices(&self, idx: BrdIdx) -> (r: Option<Vec<usize>>)
        requires
            self@.wf(),
            self@.in_bounds(idx),
        ensures
            (r is Some) <==> self@.sq(idx).state != SquareState::Unplayable,
            r matches Some(v) ==> v@ == self@.jumpable_cells(idx),
    {
        proof {
            self.lemma_coords_fit(idx);
        }
        if self.cell_state(self.cell_idx(idx)) == SquareState::Unplayable {
            return None;
        }

        let mut cells: Vec<usize> = Vec::new();

        if idx.row > 1 {
            if idx.col > 1 {
                cells.push(self.cell_index(idx.row - 2, idx.col - 2));
            }
            if idx.col + 2 < self.width {
                cells.push(self.cell_index(idx.row - 2, idx.col + 2));
            }
        }

        if idx.row + 2 < self.height {
            if idx.col > 1 {
                cells.push(self.cell_index(idx.row + 2, idx.col - 2));
            }
            if idx.col + 2 < self.width {
                cells.push(self.cell_index(idx.row + 2, idx.col + 2));
            }
        }

        proof {
            assert(cells@ =~= self@.jumpable_cells(idx));
        }
        Some(cells)
    }

    /// The squares a jump away from `idx` as a compass record, or nothing if
    /// the given square is unplayable.
    pub fn jumpable_dir(&self, idx: BrdIdx) -> (r: Option<Direction<Square>>)
        requires
            self@.wf(),
            self@.in_bounds(idx),
        ensures
            (r is Some) <==> self@.sq(idx).state != SquareState::Unplayable,
            r matches Some(d) ==> {
                &&& d.nw == if idx.row > 1 && idx.col > 1 {
                    Some(
                        self@.sq(BrdIdx { row: (idx.row - 2) as usize, col: (idx.col - 2) as usize }),
                    )
                } else {
                    None::<Square>
                }
                &&& d.ne == if idx.row > 1 && idx.col + 2 < self@.width {
                    Some(
                        self@.sq(BrdIdx { row: (idx.row - 2) as usize, col: (idx.col + 2) as usize }),
                    )
                } else {
                    None::<Square>
                }
                &&& d.sw == if idx.row + 2 < self@.height && idx.col > 1 {
                    Some(
                        self@.sq(BrdIdx { row: (idx.row + 2) as usize, col: (idx.col - 2) as usize }),
                    )
                } else {
                    None::<Square>
                }
                &&& d.se == if idx.row + 2 < self@.height && idx.col + 2 < self@.width {
                    Some(
                        self@.sq(BrdIdx { row: (idx.row + 2) as usize, col: (idx.col + 2) as usize }),
                    )
                } else {
                    None::<Square>
                }
            },
    {
        proof {
            self.lemma_coords_fit(idx);
        }
        if self.cell_state(self.cell_idx(idx)) == SquareState::Unplayable {
            return None;
        }

        let mut dir: Direction<Square> = Direction::empty();

        if idx.row > 1 {
            if idx.col > 1 {
                dir.nw = Some(self.cell(self.cell_index(idx.row - 2, idx.col - 2)));
            }
            if idx.col + 2 < self.width {
                dir.ne = Some(self.cell(self.cell_index(idx.row - 2, idx.col + 2)));
            }
        }

        if idx.row + 2 < self.height {
            if idx.col > 1 {
                dir.sw = Some(self.cell(self.cell_index(idx.row + 2, idx.col - 2)));
            }
            if idx.col + 2 < self.width {
                dir.se = Some(self.cell(self.cell_index(idx.row + 2, idx.col + 2)));
            }
        }

        Some(dir)
    }

    /// Filter a vector of flat indices for those in the forward direction of
    /// the given player, as a man of that player could move.
    pub fn filter_indices(&self, idx: BrdIdx, player: Team, indices: Vec<usize>) -> (r: Vec<usize>)
        requires
            self@.wf(),
            forall|k: int| 0 <= k < indices@.len() ==> #[trigger] indices@[k] < self@.cells.len(),
        ensures
            r@ == self@.filter_forward(idx, player, indices@),
    {
        let mut kept: Vec<usize> = Vec::new();
        let mut k: usize = 0;
        while k < indices.len()
            invariant
                self@.wf(),
                k <= indices@.len(),
                forall|j: int|
                    0 <= j < indices@.len() ==> #[trigger] indices@[j] < self@.cells.len(),
                kept@ == self@.filter_forward_to(idx, player, indices@, k as int),
            decreases indices@.len() - k,
        {
            let candidate = self.board_index(indices[k]);
            let keep = match player {
                Team::Black => candidate.row < idx.row,
                Team::White => candidate.row > idx.row,
            };
            if keep {
                kept.push(indices[k]);
            }
            proof {
                assert(kept@ =~= self@.filter_forward_to(idx, player, indices@, k + 1));
            }
            k += 1;
        }
        kept
    }

    /// The adjacent squares of `idx` in the forward direction of `player`,
    /// or nothing if the given square is unplayable.
    pub fn player_adjacent_indices(&self, idx: BrdIdx, player: Team) -> (r: Option<Vec<usize>>)
        requires
            self@.wf(),
            self@.in_bounds(idx),
        ensures
            (r is Some) <==> self@.sq(idx).state != SquareState::Unplayable,
            r matches Some(v) ==> v@ == self@.filter_forward(
                idx,
                player,
                self@.adjacent_cells(idx),
            ),
    {
        proof {
            lemma_adjacent_cells_elements(self@, idx);
        }
        match self.adjacent_indices(idx) {
            Some(x) => Some(self.filter_indices(idx, player, x)),
            None => None,
        }
    }

    /// The jumpable squares of `idx` in the forward direction of `player`,
    /// or nothing if the given square is unplayable.
    pub fn player_jumpable_indices(&self, idx: BrdIdx, player: Team) -> (r: Option<Vec<usize>>)
        requires
            self@.wf(),
            self@.in_bounds(idx),
        ensures
            (r is Some) <==> self@.sq(idx).state != SquareState::Unplayable,
            r matches Some(v) ==> v@ == self@.filter_forward(
                idx,
                player,
                self@.jumpable_cells(idx),
            ),
    {
        proof {
            lemma_jumpable_cells_elements(self@, idx);
        }
        match self.jumpable_indices(idx) {
            Some(x) => Some(self.filter_indices(idx, player, x)),
            None => None,
        }
    }

    /// The signed row and column differences `to - from`.
    pub fn idx_diffs(from: BrdIdx, to: BrdIdx) -> (r: (isize, isize))
        requires
            from.row <= isize::MAX as usize,
            from.col <= isize::MAX as usize,
            to.row <= isize::MAX as usize,
            to.col <= isize::MAX as usize,
        ensures
            r.0 as int == to.row - from.row,
            r.1 as int == to.col - from.col,
    {
        ((to.row as isize) - (from.row as isize), (to.col as isize) - (from.col as isize))
    }

    /// Every row and column of an in-bounds index fits in `isize`.
    pub proof fn lemma_coords_fit(self, idx: BrdIdx)
        requires
            self@.wf(),
            self@.in_bounds(idx),
        ensures
            idx.row <= isize::MAX as usize,
            idx.col <= isize::MAX as usize,
    {
        assert(self@.height <= self@.width * self@.height && self@.width <= self@.width
            * self@.height) by (nonlinear_arith)
            requires
                1 <= self@.width,
                1 <= self@.height,
        ;
    }

    /// Flat index of the square jumped over, the midpoint of `from` and `to`.
    pub fn jumpee_idx(&self, from: BrdIdx, to: BrdIdx) -> (r: usize)
        requires
            self@.wf(),
            self@.in_bounds(from),
            self@.in_bounds(to),
            to.row - from.row == 2 || to.row - from.row == -2,
            to.col - from.col == 2 || to.col - from.col == -2,
        ensures
            r as int == self@.jumpee_flat(from, to),
            r < self@.cells.len(),
    {
        let mid_row = if to.row > from.row {
            from.row + 1
        } else {
            from.row - 1
        };
        let mid_col = if to.col > from.col {
            from.col + 1
        } else {
            from.col - 1
        };
        self.cell_index(mid_row, mid_col)
    }

    /// Check that a source piece and the piece being jumped over belong to
    /// opposing teams.
    pub fn check_jumpee_team(from: Piece, jumpee: Piece) -> (r: bool)
        ensures
            r == (from.team.spec_opponent() == jumpee.team),
    {
        from.team.opponent() == jumpee.team
    }

    /// Unwrap the jumped-over square and decide whether jumping it is allowed.
    pub fn validate_jumpee(jumpee: Square, from_occ: Piece) -> (r: Moveable)
        requires
            jumpee.occupant is Some,
        ensures
            r == validate_jumpee_check(jumpee, from_occ),
    {
        match jumpee.occupant {
            Some(jumpee_occupant) => {
                if Board::check_jumpee_team(from_occ, jumpee_occupant) {
                    Moveable::Allowed
                } else {
                    Moveable::JumpingSameTeam
                }
            },
            None => Moveable::JumpingSameTeam,
        }
    }

    /// Trajectory check for a man of the side to move.
    ///
    /// The source square must be playable: a jump from a playable square
    /// crosses a playable square, so an unplayable jumped-over square — a
    /// broken board invariant, fatal rather than an ordinary rule outcome —
    /// is impossible on the admitted inputs.
    pub fn validate_man_move(&self, from: BrdIdx, to: BrdIdx, from_square_occupant: Piece) -> (r:
        Moveable)
        requires
            self@.wf(),
            self@.in_bounds(from),
            self@.in_bounds(to),
            self@.sq(from).state != SquareState::Unplayable,
        ensures
            r == self@.man_move_check(from, to, from_square_occupant),
    {
        proof {
            self.lemma_coords_fit(from);
            self.lemma_coords_fit(to);
        }
        let (row_diff, col_diff) = Board::idx_diffs(from, to);

        // men move only forward: toward larger rows for White, smaller for Black
        let idx_scale: isize = match self.current_turn {
            Team::Black => -1,
            Team::White => 1,
        };

        if row_diff == idx_scale {
            if col_diff == 1 || col_diff == -1 {
                Moveable::Allowed
            } else {
                Moveable::IllegalTrajectory
            }
        } else if row_diff == 2 * idx_scale {
            if col_diff == 2 || col_diff == -2 {
                let jumpee = self.cell(self.jumpee_idx(from, to));
                match jumpee.state {
                    SquareState::Occupied => {
                        proof {
                            // on a well-formed board an occupied square holds a piece
                            assert(square_wf(self@.cells[self@.jumpee_flat(from, to)]));
                        }
                        Board::validate_jumpee(jumpee, from_square_occupant)
                    },
                    _ => Moveable::NoJumpablePiece,
                }
            } else {
                Moveable::IllegalTrajectory
            }
        } else {
            Moveable::IllegalTrajectory
        }
    }

    /// Trajectory check for a king of the side to move.
    ///
    /// As for [`Board::validate_man_move`], the source square must be
    /// playable, which rules out the fatal case of an unplayable
    /// jumped-over square.
    pub fn validate_king_move(&self, from: BrdIdx, to: BrdIdx, from_square_occupant: Piece) -> (r:
        Moveable)
        requires
            self@.wf(),
            self@.in_bounds(from),
            self@.in_bounds(to),
            self@.sq(from).state != SquareState::Unplayable,
        ensures
            r == self@.king_move_check(from, to, from_square_occupant),
    {
        proof {
            self.lemma_coords_fit(from);
            self.lemma_coords_fit(to);
        }
        let (row_diff, col_diff) = Board::idx_diffs(from, to);

        if row_diff == 1 || row_diff == -1 {
            if col_diff == 1 || col_diff == -1 {
                Moveable::Allowed
            } else {
                Moveable::IllegalTrajectory
            }
        } else if row_diff == 2 || row_diff == -2 {
            if col_diff == 2 || col_diff == -2 {
                let jumpee = self.cell(self.jumpee_idx(from, to));
                match jumpee.state {
                    SquareState::Occupied => {
                        proof {
                            assert(square_wf(self@.cells[self@.jumpee_flat(from, to)]));
                        }
                        Board::validate_jumpee(jumpee, from_square_occupant)
                    },
                    _ => Moveable::NoJumpablePiece,
                }
            } else {
                Moveable::IllegalTrajectory
            }
        } else {
            Moveable::IllegalTrajectory
        }
    }

    /// Check whether a move given by source and destination indices is legal.
    pub fn can_move(&self, from: BrdIdx, to: BrdIdx) -> (r: Moveable)
        requires
            self@.wf(),
        ensures
            r == self@.can_move_check(from, to),
    {
        if from.row > self.height - 1 || from.col > self.width - 1 {
            return Moveable::OutOfBounds;
        }
        if to.row > self.height - 1 || to.col > self.width - 1 {
            return Moveable::OutOfBounds;
        }

        let from_square = self.cell(self.cell_idx(from));

        match from_square.state {
            SquareState::Empty => Moveable::UnoccupiedSrc,
            SquareState::Unplayable => Moveable::Unplayable,
            SquareState::Occupied => {
                match from_square.occupant {
                    // cannot arise on a well-formed board
                    None => Moveable::UnoccupiedSrc,
                    Some(from_square_occupant) => {
                        if from_square_occupant.team != self.current_turn {
                            return Moveable::WrongTeamSrc;
                        }

                        let strength_check = match from_square_occupant.strength {
                            Strength::Man => self.validate_man_move(
                                from,
                                to,
                                from_square_occupant,
                            ),
                            Strength::King => self.validate_king_move(
                                from,
                                to,
                                from_square_occupant,
                            ),
                        };
                        if strength_check != Moveable::Allowed {
                            return strength_check;
                        }

                        let to_square = self.cell(self.cell_idx(to));
                        match to_square.state {
                            SquareState::Empty => Moveable::Allowed,
                            SquareState::Unplayable => Moveable::Unplayable,
                            SquareState::Occupied => Moveable::OccupiedDest,
                        }
                    },
                }
            },
        }
    }

    /// Relocate the occupant of `from` to `to`, clear `from`, and pass the
    /// turn to the other side.
    ///
    /// Legality is not re-checked here: the caller must already have
    /// confirmed that the transition is allowed.
    pub fn apply_move(&self, from: BrdIdx, to: BrdIdx) -> (r: Board)
        requires
            self@.wf(),
            self@.can_move_check(from, to) == Moveable::Allowed,
        ensures
            r@ == self@.apply_move_v(from, to),
            r@.wf(),
    {
        let mut new = self.clone();

        let from_idx = self.cell_idx(from);
        let to_idx = self.cell_idx(to);

        new.set_cell(to_idx, self.cell(from_idx));
        new.set_cell(from_idx, Square::empty());
        new.set_turn(self.current_turn().opponent());

        proof {
            assert(new@ =~= self@.apply_move_v(from, to));
        }
        new
    }

    /// As [`Board::apply_move`], and additionally clear the jumped-over
    /// square, capturing its piece.
    pub fn apply_jump(&self, from: BrdIdx, to: BrdIdx) -> (r: Board)
        requires
            self@.wf(),
            self@.can_move_check(from, to) == Moveable::Allowed,
            to.row - from.row == 2 || to.row - from.row == -2,
            to.col - from.col == 2 || to.col - from.col == -2,
        ensures
            r@ == self@.apply_jump_v(from, to),
            r@.wf(),
    {
        let mut new = self.clone();

        let from_idx = self.cell_idx(from);
        let to_idx = self.cell_idx(to);

        new.set_cell(to_idx, self.cell(from_idx));
        new.set_cell(from_idx, Square::empty());

        let mid_idx = self.jumpee_idx(from, to);
        proof {
            lemma_flat_roundtrip(self@.width, from.row as int, from.col as int);
            self.lemma_jumpee_playable(from, to);
        }
        new.set_cell(mid_idx, Square::empty());
        new.set_turn(self.current_turn().opponent());

        proof {
            assert(new@ =~= self@.apply_jump_v(from, to));
        }
        new
    }

    /// The square jumped over lies on the playable lattice whenever the
    /// source square does: moving one row and one column keeps the parity of
    /// the cell.
    proof fn lemma_jumpee_playable(self, from: BrdIdx, to: BrdIdx)
        requires
            self@.wf(),
            self@.in_bounds(from),
            self@.in_bounds(to),
            to.row - from.row == 2 || to.row - from.row == -2,
            to.col - from.col == 2 || to.col - from.col == -2,
            playable_cell(from.row as int, from.col as int),
        ensures
            playable_cell(
                self@.jumpee_flat(from, to) / self@.width,
                self@.jumpee_flat(from, to) % self@.width,
            ),
    {
        let mr = from.row + (to.row - from.row) / 2;
        let mc = from.col + (to.col - from.col) / 2;
        lemma_flat_roundtrip(self@.width, mr, mc);
        assert((mr + mc) % 2 == (from.row + from.col) % 2) by (nonlinear_arith)
            requires
                mr + mc == from.row + from.col || mr + mc == from.row + from.col + 2 || mr + mc
                    == from.row + from.col - 2,
        ;
    }

    /// The number of pieces remaining for a player.
    pub fn num_player(&self, team: Team) -> (r: usize)
        requires
            self@.wf(),
        ensures
            r as int == self@.team_count(team),
    {
        let mut total: usize = 0;
        let mut i: usize = 0;
        let n = self.num_cells();
        while i < n
            invariant
                i <= n,
                n as int == self@.cells.len(),
                total as int == team_count_to(self@.cells, team, i as int),
                total <= i,
            decreases n - i,
        {
            let square = self.cell(i);
            match square.occupant {
                None => {},
                Some(x) => {
                    if square.state == SquareState::Occupied && x.team == team {
                        total += 1;
                    }
                },
            }
            i += 1;
        }
        total
    }

    /// The number of pieces remaining on the board.
    pub fn num_pieces(&self) -> (r: usize)
        requires
            self@.wf(),
        ensures
            r as int == self@.piece_count(),
    {
        let mut total: usize = 0;
        let mut i: usize = 0;
        let n = self.num_cells();
        while i < n
            invariant
                i <= n,
                n as int == self@.cells.len(),
                total as int == piece_count_to(self@.cells, i as int),
                total <= i,
            decreases n - i,
        {
            if self.cell_state(i) == SquareState::Occupied {
                total += 1;
            }
            i += 1;
        }
        total
    }

    /// The material score: Black pieces minus White pieces.
    pub fn score(&self) -> (r: isize)
        requires
            self@.wf(),
        ensures
            r as int == self@.score_v(),
    {
        let mut black: usize = 0;
        let mut white: usize = 0;
        let mut i: usize = 0;
        let n = self.num_cells();
        while i < n
            invariant
                i <= n,
                n as int == self@.cells.len(),
                black as int == team_count_to(self@.cells, Team::Black, i as int),
                white as int == team_count_to(self@.cells, Team::White, i as int),
                black <= i,
                white <= i,
            decreases n - i,
        {
            let square = self.cell(i);
            if square.state == SquareState::Occupied {
                match square.occupant {
                    None => {},
                    Some(x) => {
                        match x.team {
                            Team::Black => {
                                black += 1;
                            },
                            Team::White => {
                                white += 1;
                            },
                        }
                    },
                }
            }
            i += 1;
        }
        (black as isize) - (white as isize)
    }
}

/// A transition reported `Allowed` really is a move of one piece: applying
/// the step relocates exactly the source occupant. The destination ends up
/// occupied by the moved piece, the source ends up empty, the board stays
/// well formed, and no piece of either side appears or disappears.
pub proof fn lemma_allowed_move_effect(bv: BoardView, from: BrdIdx, to: BrdIdx)
    requires
        bv.wf(),
        bv.can_move_check(from, to) == Moveable::Allowed,
    ensures
        bv.sq(from).state == SquareState::Occupied,
        bv.sq(to).state == SquareState::Empty,
        bv.apply_move_v(from, to).wf(),
        bv.apply_move_v(from, to).sq(to) == bv.sq(from),
        bv.apply_move_v(from, to).sq(from) == empty_square(),
        forall|t: Team| #[trigger] bv.apply_move_v(from, to).team_count(t) == bv.team_count(t),
        bv.apply_move_v(from, to).piece_count() == bv.piece_count(),
{
    let w = bv.width;
    let n = bv.cells.len() as int;
    let ff = bv.flat(from);
    let ft = bv.flat(to);
    vstd::arithmetic::mul::lemma_mul_is_commutative(bv.width, bv.height);
    lemma_flat_in_range(bv.width, bv.height, from.row as int, from.col as int);
    lemma_flat_in_range(bv.width, bv.height, to.row as int, to.col as int);
    lemma_flat_roundtrip(w, from.row as int, from.col as int);
    lemma_flat_roundtrip(w, to.row as int, to.col as int);
    assert(from.row != to.row);
    assert(ff != ft);
    let moved = bv.cells[ff];
    let step = bv.apply_move_v(from, to);
    assert forall|t: Team| #[trigger] step.team_count(t) == bv.team_count(t) by {
        lemma_count_update(bv.cells, t, ft, moved, n);
        lemma_count_update(bv.cells.update(ft, moved), t, ff, empty_square(), n);
    }
    assert(step.piece_count() == bv.piece_count()) by {
        lemma_count_update(bv.cells, Team::Black, ft, moved, n);
        lemma_count_update(bv.cells.update(ft, moved), Team::Black, ff, empty_square(), n);
    }
    assert forall|i: int| 0 <= i < n implies square_wf(#[trigger] step.cells[i]) && (
    step.cells[i].state == SquareState::Unplayable <==> !playable_cell(i / w, i % w)) by {
        if i != ff && i != ft {
            assert(step.cells[i] == bv.cells[i]);
        }
    }
}

/// A transition reported `Allowed` along a jump trajectory captures exactly
/// one opposing piece: the destination takes the moved piece, the source and
/// the jumped-over square end up empty, the board stays well formed, the
/// moving side keeps all its pieces, and the opposing side loses exactly one.
pub proof fn lemma_allowed_jump_effect(bv: BoardView, from: BrdIdx, to: BrdIdx)
    requires
        bv.wf(),
        bv.can_move_check(from, to) == Moveable::Allowed,
        to.row - from.row == 2 || to.row - from.row == -2,
        to.col - from.col == 2 || to.col - from.col == -2,
    ensures
        bv.sq(from).state == SquareState::Occupied,
        bv.sq(to).state == SquareState::Empty,
        occupied_by(bv.cells[bv.jumpee_flat(from, to)], bv.turn.spec_opponent()),
        bv.apply_jump_v(from, to).wf(),
        bv.apply_jump_v(from, to).sq(to) == bv.sq(from),
        bv.apply_jump_v(from, to).sq(from) == empty_square(),
        bv.apply_jump_v(from, to).cells[bv.jumpee_flat(from, to)] == empty_square(),
        bv.apply_jump_v(from, to).team_count(bv.turn) == bv.team_count(bv.turn),
        bv.apply_jump_v(from, to).team_count(bv.turn.spec_opponent()) == bv.team_count(
            bv.turn.spec_opponent(),
        ) - 1,
        bv.apply_jump_v(from, to).piece_count() == bv.piece_count() - 1,
{
    let w = bv.width;
    let n = bv.cells.len() as int;
    let ff = bv.flat(from);
    let ft = bv.flat(to);
    let fm = bv.jumpee_flat(from, to);
    let mr = from.row + (to.row - from.row) / 2;
    let mc = from.col + (to.col - from.col) / 2;
    vstd::arithmetic::mul::lemma_mul_is_commutative(bv.width, bv.height);
    lemma_flat_in_range(bv.width, bv.height, from.row as int, from.col as int);
    lemma_flat_in_range(bv.width, bv.height, to.row as int, to.col as int);
    lemma_flat_in_range(bv.width, bv.height, mr, mc);
    lemma_flat_roundtrip(w, from.row as int, from.col as int);
    lemma_flat_roundtrip(w, to.row as int, to.col as int);
    lemma_flat_roundtrip(w, mr, mc);
    assert(ff != ft && ff != fm && ft != fm);
    let moved = bv.cells[ff];
    let jumpee = bv.cells[fm];
    let jump = bv.apply_jump_v(from, to);
    let mid = bv.cells.update(ft, moved).update(ff, empty_square());
    assert(occupied_by(jumpee, bv.turn.spec_opponent()));
    assert forall|t: Team|
        #[trigger] jump.team_count(t) == bv.team_count(t) - (if occupied_by(jumpee, t) {
            1int
        } else {
            0int
        }) by {
        lemma_count_update(bv.cells, t, ft, moved, n);
        lemma_count_update(bv.cells.update(ft, moved), t, ff, empty_square(), n);
        lemma_count_update(mid, t, fm, empty_square(), n);
    }
    assert(!occupied_by(jumpee, bv.turn));
    assert(jump.piece_count() == bv.piece_count() - 1) by {
        lemma_count_update(bv.cells, Team::Black, ft, moved, n);
        lemma_count_update(bv.cells.update(ft, moved), Team::Black, ff, empty_square(), n);
        lemma_count_update(mid, Team::Black, fm, empty_square(), n);
    }
    assert forall|i: int| 0 <= i < n implies square_wf(#[trigger] jump.cells[i]) && (
    jump.cells[i].state == SquareState::Unplayable <==> !playable_cell(i / w, i % w)) by {
        if i != ff && i != ft && i != fm {
            assert(jump.cells[i] == bv.cells[i]);
        }
    }
}

/// The step-trajectory rule for kings is direction-agnostic: if a one-row
/// step from `from` to `to` passes the king trajectory check, the exact
/// reverse pair passes it as well, both on the same board and on the board
/// obtained by applying the step. (On the applied board the full legality
/// check would still refuse the reverse for the piece's owner, because the
/// turn has passed to the other side; the trajectory rule itself is what is
/// symmetric.)
pub proof fn lemma_king_step_reversible(bv: BoardView, from: BrdIdx, to: BrdIdx, pc: Piece)
    requires
        to.row - from.row == 1 || to.row - from.row == -1,
        bv.king_move_check(from, to, pc) == Moveable::Allowed,
    ensures
        bv.king_move_check(to, from, pc) == Moveable::Allowed,
        bv.apply_move_v(from, to).king_move_check(to, from, pc) == Moveable::Allowed,
{
}

/// Men are forward-only: the exact reverse of a legal man step is never a
/// legal man trajectory for the same side to move.
pub proof fn lemma_man_step_not_reversible(bv: BoardView, from: BrdIdx, to: BrdIdx, pc: Piece)
    requires
        to.row - from.row == 1 || to.row - from.row == -1,
        bv.man_move_check(from, to, pc) == Moveable::Allowed,
    ensures
        bv.man_move_check(to, from, pc) == Moveable::IllegalTrajectory,
{
}

/// The material score of a board decomposes as the count of Black pieces
/// minus the count of White pieces.
pub proof fn lemma_score_decomposition(bv: BoardView)
    ensures
        bv.score_v() == bv.team_count(Team::Black) - bv.team_count(Team::White),
{
}

} // verus!
