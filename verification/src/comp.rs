//! The automated player: move enumeration and bounded-depth minimax search.
//!
//! [`Computer::get_move`] builds a breadth-first tree of future board states
//! to a fixed depth in an arena — a flat vector of nodes linked by integer
//! indices — scores the leaves by material count, propagates scores upward by
//! minimax, and selects a resulting board, either optimally or at random
//! depending on a configurable chance.

use vstd::prelude::*;

use rand::Rng;

use crate::board::lemma_allowed_jump_effect;
use crate::board::lemma_allowed_move_effect;
use crate::board::lemma_count_zero;
use crate::board::lemma_index_bounds;
use crate::board::lemma_jumpable_cells_elements;
use crate::board::lemma_adjacent_cells_elements;
use crate::board::occupied_by;
use crate::board::Board;
use crate::board::BoardView;
use crate::board::BrdIdx;
use crate::enums::Moveable;
use crate::enums::MoveType;
use crate::enums::SquareState;
use crate::enums::Team;

verus! {

/// A candidate transition: source and destination indices and whether it is
/// a plain step or a capturing jump.
#[derive(Clone, Copy, Debug, PartialEq, Eq, Structural)]
pub struct Move {
    pub from: BrdIdx,
    pub to: BrdIdx,
    pub mv_type: MoveType,
}

impl Move {
    /// Form a move from its indices and kind.
    pub fn new(from: BrdIdx, to: BrdIdx, mv_type: MoveType) -> (r: Move)
        ensures
            r == (Move { from, to, mv_type }),
    {
        Move { from, to, mv_type }
    }
}

/// The board reached by a move: a step relocates the piece, a jump also
/// clears the jumped-over square; either way the turn passes to the other
/// side.
pub open spec fn apply_mv(bv: BoardView, m: Move) -> BoardView {
    match m.mv_type {
        MoveType::Move => bv.apply_move_v(m.from, m.to),
        MoveType::Jump => bv.apply_jump_v(m.from, m.to),
    }
}

/// The moves from `from` toward the first `n` of the candidate destinations
/// `cands` that the legality check allows, in candidate order, each tagged
/// with `kind`.
pub open spec fn moves_thru(
    bv: BoardView,
    from: BrdIdx,
    cands: Seq<usize>,
    kind: MoveType,
    n: int,
) -> Seq<Move>
    decreases n,
{
    if n <= 0 {
        Seq::empty()
    } else {
        moves_thru(bv, from, cands, kind, n - 1) + if bv.can_move_check(
            from,
            bv.bidx(cands[n - 1] as int),
        ) == Moveable::Allowed {
            seq![Move { from, to: bv.bidx(cands[n - 1] as int), mv_type: kind }]
        } else {
            Seq::empty()
        }
    }
}

/// All legal moves of the piece on flat index `u`: the allowed steps to its
/// adjacent squares, then the allowed jumps, in candidate order.
pub open spec fn square_moves(bv: BoardView, u: int) -> Seq<Move> {
    let from = bv.bidx(u);
    moves_thru(
        bv,
        from,
        bv.adjacent_cells(from),
        MoveType::Move,
        bv.adjacent_cells(from).len() as int,
    ) + moves_thru(
        bv,
        from,
        bv.jumpable_cells(from),
        MoveType::Jump,
        bv.jumpable_cells(from).len() as int,
    )
}

/// The legal moves contributed by the first `n` squares of the board, in
/// row-major scan order: each square occupied by the side to move
/// contributes its square moves.
pub open spec fn avail_to(bv: BoardView, n: int) -> Seq<Move>
    decreases n,
{
    if n <= 0 {
        Seq::empty()
    } else {
        avail_to(bv, n - 1) + if occupied_by(bv.cells[n - 1], bv.turn) {
            square_moves(bv, n - 1)
        } else {
            Seq::empty()
        }
    }
}

/// Every legal move of the side to move: scan the occupied squares of that
/// side in row-major order, and for each keep the allowed steps, then the
/// allowed jumps.
pub open spec fn available_moves(bv: BoardView) -> Seq<Move> {
    avail_to(bv, bv.cells.len() as int)
}

/// The boards one legal move away from `bv`, in move order.
#[verifier::opaque]
pub open spec fn children_boards(bv: BoardView) -> Seq<BoardView> {
    Seq::new(available_moves(bv).len(), |k: int| apply_mv(bv, available_moves(bv)[k]))
}

/// The next breadth-first layer below a layer of boards: every board's
/// children, in parent order then per-parent move order.
#[verifier::opaque]
pub open spec fn expand_boards(bvs: Seq<BoardView>) -> Seq<BoardView>
    decreases bvs.len(),
{
    if bvs.len() == 0 {
        Seq::empty()
    } else {
        expand_boards(bvs.drop_last()) + children_boards(bvs.last())
    }
}

/// The boards of breadth-first layer `l` of the search tree rooted at `bv`:
/// the root alone on layer zero, and below each layer the children of its
/// boards.
#[verifier::opaque]
pub open spec fn level_boards(bv: BoardView, l: nat) -> Seq<BoardView>
    decreases l,
{
    if l == 0 {
        seq![bv]
    } else {
        expand_boards(level_boards(bv, (l - 1) as nat))
    }
}

/// The number of nodes of the search tree built from `bv` to depth `d`: the
/// root plus every breadth-first layer up to `d`. Once a layer comes up
/// empty the later layers are empty too, so the size stops growing.
#[verifier::opaque]
pub open spec fn tree_size(bv: BoardView, d: nat) -> int
    decreases d,
{
    if d == 0 {
        1
    } else {
        tree_size(bv, (d - 1) as nat) + level_boards(bv, d).len()
    }
}

/// Below an empty layer every layer is empty.
proof fn lemma_levels_stay_empty(bv: BoardView, l: nat, d: nat)
    requires
        level_boards(bv, l).len() == 0,
        l <= d,
    ensures
        level_boards(bv, d).len() == 0,
    decreases d - l,
{
    reveal(level_boards);
    reveal(expand_boards);
    if d > l {
        lemma_levels_stay_empty(bv, l, (d - 1) as nat);
    }
}

/// Once a layer comes up empty, the tree size no longer grows with depth.
proof fn lemma_tree_size_stops(bv: BoardView, l: nat, d: nat)
    requires
        level_boards(bv, l).len() == 0,
        l <= d,
    ensures
        tree_size(bv, d) == tree_size(bv, l),
    decreases d - l,
{
    reveal(tree_size);
    if d > l {
        lemma_tree_size_stops(bv, l, (d - 1) as nat);
        lemma_levels_stay_empty(bv, l, d);
    }
}

/// A board whose side to move has no legal move spans a tree of just its
/// root, at every depth: the first layer below the root is empty, so the
/// size stays one and a move chooser reports zero nodes beyond the root.
pub proof fn lemma_no_moves_tree_size(bv: BoardView, d: nat)
    requires
        available_moves(bv).len() == 0,
    ensures
        tree_size(bv, d) == 1,
{
    reveal(children_boards);
    reveal(expand_boards);
    reveal(level_boards);
    reveal(tree_size);
    if d > 0 {
        let root_layer = level_boards(bv, 0);
        assert(root_layer == seq![bv]);
        assert(root_layer.drop_last().len() == 0);
        assert(expand_boards(root_layer.drop_last()).len() == 0);
        assert(root_layer.last() == bv);
        assert(children_boards(bv).len() == 0);
        assert(level_boards(bv, 1).len() == 0);
        assert(tree_size(bv, 0) == 1);
        assert(tree_size(bv, 1) == 1);
        lemma_tree_size_stops(bv, 1, d);
    }
}

/// Every element of [`moves_thru`] is an allowed move from `from` to one of
/// the candidate destinations.
proof fn lemma_moves_thru_member(
    bv: BoardView,
    from: BrdIdx,
    cands: Seq<usize>,
    kind: MoveType,
    n: int,
    k: int,
)
    requires
        0 <= n <= cands.len(),
        0 <= k < moves_thru(bv, from, cands, kind, n).len(),
    ensures
        exists|j: int|
            0 <= j < n && moves_thru(bv, from, cands, kind, n)[k] == (Move {
                from,
                to: bv.bidx(#[trigger] cands[j] as int),
                mv_type: kind,
            }) && bv.can_move_check(from, bv.bidx(cands[j] as int)) == Moveable::Allowed,
    decreases n,
{
    if k < moves_thru(bv, from, cands, kind, n - 1).len() {
        lemma_moves_thru_member(bv, from, cands, kind, n - 1, k);
    }
}

/// Every element of [`available_moves`] is a legal transition of the board:
/// its indices are in bounds, the legality check allows it, its kind matches
/// the distance it covers, and the board it leads to is well formed.
pub proof fn lemma_available_move_ok(bv: BoardView, k: int)
    requires
        bv.wf(),
        0 <= k < available_moves(bv).len(),
    ensures
        ({
            let m = available_moves(bv)[k];
            &&& bv.in_bounds(m.from)
            &&& bv.in_bounds(m.to)
            &&& bv.can_move_check(m.from, m.to) == Moveable::Allowed
            &&& (m.mv_type == MoveType::Move ==> (m.to.row - m.from.row == 1 || m.to.row
                - m.from.row == -1) && (m.to.col - m.from.col == 1 || m.to.col - m.from.col
                == -1))
            &&& (m.mv_type == MoveType::Jump ==> (m.to.row - m.from.row == 2 || m.to.row
                - m.from.row == -2) && (m.to.col - m.from.col == 2 || m.to.col - m.from.col
                == -2))
            &&& apply_mv(bv, m).wf()
            &&& apply_mv(bv, m).width == bv.width
            &&& apply_mv(bv, m).height == bv.height
            &&& apply_mv(bv, m).turn == bv.turn.spec_opponent()
        }),
{
    lemma_avail_to_member(bv, bv.cells.len() as int, k);
}

/// As [`lemma_available_move_ok`], for the prefix enumeration [`avail_to`].
proof fn lemma_avail_to_member(bv: BoardView, n: int, k: int)
    requires
        bv.wf(),
        0 <= n <= bv.cells.len(),
        0 <= k < avail_to(bv, n).len(),
    ensures
        ({
            let m = avail_to(bv, n)[k];
            &&& bv.in_bounds(m.from)
            &&& bv.in_bounds(m.to)
            &&& bv.can_move_check(m.from, m.to) == Moveable::Allowed
            &&& (m.mv_type == MoveType::Move ==> (m.to.row - m.from.row == 1 || m.to.row
                - m.from.row == -1) && (m.to.col - m.from.col == 1 || m.to.col - m.from.col
                == -1))
            &&& (m.mv_type == MoveType::Jump ==> (m.to.row - m.from.row == 2 || m.to.row
                - m.from.row == -2) && (m.to.col - m.from.col == 2 || m.to.col - m.from.col
                == -2))
            &&& apply_mv(bv, m).wf()
            &&& apply_mv(bv, m).width == bv.width
            &&& apply_mv(bv, m).height == bv.height
            &&& apply_mv(bv, m).turn == bv.turn.spec_opponent()
        }),
    decreases n,
{
    if k < avail_to(bv, n - 1).len() {
        lemma_avail_to_member(bv, n - 1, k);
    } else {
        let m = avail_to(bv, n)[k];
        let from = bv.bidx(n - 1);
        lemma_index_bounds(bv.width, bv.height, n - 1);
        lemma_adjacent_cells_elements(bv, from);
        lemma_jumpable_cells_elements(bv, from);
        let adj = bv.adjacent_cells(from);
        let jmp = bv.jumpable_cells(from);
        let steps = moves_thru(bv, from, adj, MoveType::Move, adj.len() as int);
        let jumps = moves_thru(bv, from, jmp, MoveType::Jump, jmp.len() as int);
        if k - avail_to(bv, n - 1).len() < steps.len() {
            lemma_moves_thru_member(
                bv,
                from,
                adj,
                MoveType::Move,
                adj.len() as int,
                k - avail_to(bv, n - 1).len(),
            );
        } else {
            lemma_moves_thru_member(
                bv,
                from,
                jmp,
                MoveType::Jump,
                jmp.len() as int,
                k - avail_to(bv, n - 1).len() - steps.len(),
            );
        }
        assert(bv.can_move_check(m.from, m.to) == Moveable::Allowed);
        if m.mv_type == MoveType::Move {
            lemma_allowed_move_effect(bv, m.from, m.to);
        } else {
            lemma_allowed_jump_effect(bv, m.from, m.to);
        }
    }
}

/// A side with no pieces on the board has no legal moves.
pub proof fn lemma_no_pieces_no_moves(bv: BoardView)
    requires
        bv.wf(),
        bv.team_count(bv.turn) == 0,
    ensures
        available_moves(bv) == Seq::<Move>::empty(),
{
    lemma_count_zero(bv.cells, bv.turn, bv.cells.len() as int);
    lemma_avail_to_empty(bv, bv.cells.len() as int);
}

/// The least element of a non-empty sequence of scores.
pub open spec fn seq_min(vals: Seq<int>) -> int
    decreases vals.len(),
{
    if vals.len() <= 1 {
        vals[0]
    } else {
        let rest = seq_min(vals.drop_last());
        if vals.last() < rest {
            vals.last()
        } else {
            rest
        }
    }
}

/// The greatest element of a non-empty sequence of scores.
pub open spec fn seq_max(vals: Seq<int>) -> int
    decreases vals.len(),
{
    if vals.len() <= 1 {
        vals[0]
    } else {
        let rest = seq_max(vals.drop_last());
        if vals.last() > rest {
            vals.last()
        } else {
            rest
        }
    }
}

/// The least element of a non-empty sequence is an element, and no element
/// is smaller; dually for the greatest.
pub proof fn lemma_seq_extrema(vals: Seq<int>)
    requires
        vals.len() >= 1,
    ensures
        exists|i: int| 0 <= i < vals.len() && #[trigger] vals[i] == seq_min(vals),
        exists|i: int| 0 <= i < vals.len() && #[trigger] vals[i] == seq_max(vals),
        forall|i: int| 0 <= i < vals.len() ==> seq_min(vals) <= #[trigger] vals[i],
        forall|i: int| 0 <= i < vals.len() ==> #[trigger] vals[i] <= seq_max(vals),
    decreases vals.len(),
{
    if vals.len() > 1 {
        lemma_seq_extrema(vals.drop_last());
        assert(vals[vals.len() - 1] == vals.last());
        assert forall|i: int| 0 <= i < vals.len() implies seq_min(vals) <= #[trigger] vals[i]
            && vals[i] <= seq_max(vals) by {
            if i < vals.len() - 1 {
                assert(vals.drop_last()[i] == vals[i]);
            }
        }
    } else {
        assert(vals[0] == seq_min(vals));
        assert(vals[0] == seq_max(vals));
    }
}

/// The minimax value of a board at a given remaining depth.
///
/// At depth zero, or when the side to move has no legal move, the value is
/// the material score. Otherwise it is the extremum over the values of the
/// boards one move away at one less depth: the minimum when White is to
/// move, the maximum when Black is — White minimises and Black maximises
/// the Black-minus-White material score.
pub open spec fn minimax_value(bv: BoardView, depth: nat) -> int
    decreases depth, 0nat, 0nat,
{
    if depth == 0 {
        bv.score_v()
    } else {
        let moves = available_moves(bv);
        if moves.len() == 0 {
            bv.score_v()
        } else {
            let vals = minimax_children(bv, moves, (depth - 1) as nat);
            if bv.turn == Team::White {
                seq_min(vals)
            } else {
                seq_max(vals)
            }
        }
    }
}

/// The minimax values of the boards reached from `bv` by each of `moves`,
/// in move order, each at the given remaining depth.
pub open spec fn minimax_children(bv: BoardView, moves: Seq<Move>, depth: nat) -> Seq<int>
    decreases depth, 1nat, moves.len(),
{
    if moves.len() == 0 {
        Seq::empty()
    } else {
        seq![minimax_value(apply_mv(bv, moves.first()), depth)] + minimax_children(
            bv,
            moves.drop_first(),
            depth,
        )
    }
}

/// [`minimax_children`] has one value per move, the minimax value of the
/// board that move reaches.
pub proof fn lemma_minimax_children_index(bv: BoardView, moves: Seq<Move>, depth: nat, k: int)
    requires
        0 <= k < moves.len(),
    ensures
        minimax_children(bv, moves, depth).len() == moves.len(),
        minimax_children(bv, moves, depth)[k] == minimax_value(apply_mv(bv, moves[k]), depth),
    decreases moves.len(),
{
    lemma_minimax_children_len(bv, moves, depth);
    if k > 0 {
        lemma_minimax_children_index(bv, moves.drop_first(), depth, k - 1);
    }
}

/// [`minimax_children`] has the same length as its move sequence.
proof fn lemma_minimax_children_len(bv: BoardView, moves: Seq<Move>, depth: nat)
    ensures
        minimax_children(bv, moves, depth).len() == moves.len(),
    decreases moves.len(),
{
    if moves.len() > 0 {
        lemma_minimax_children_len(bv, moves.drop_first(), depth);
    }
}

/// No prefix of the scan contributes a move when no square of the prefix is
/// occupied by the side to move.
proof fn lemma_avail_to_empty(bv: BoardView, n: int)
    requires
        0 <= n <= bv.cells.len(),
        forall|j: int| 0 <= j < n ==> !occupied_by(#[trigger] bv.cells[j], bv.turn),
    ensures
        avail_to(bv, n) == Seq::<Move>::empty(),
    decreases n,
{
    if n > 0 {
        lemma_avail_to_empty(bv, n - 1);
        assert(avail_to(bv, n) =~= Seq::<Move>::empty());
    }
}

/// A search-tree entry: a board snapshot with the score attached to it.
pub struct BoardNode {
    pub board: Board,
    pub score: isize,
}

impl BoardNode {
    /// Form a node from a board and a score.
    pub fn new(board: Board, score: isize) -> (r: BoardNode)
        ensures
            r == (BoardNode { board, score }),
    {
        BoardNode { board, score }
    }

    /// Form a node from a board alone; the score starts at zero and is
    /// filled in when the tree is scored.
    pub fn brd(board: Board) -> (r: BoardNode)
        ensures
            r == (BoardNode { board, score: 0isize }),
    {
        BoardNode { board, score: 0 }
    }
}

/// An arena holding a tree of board nodes. Nodes live in a flat vector and
/// name their children by index; children always stand after their parent,
/// so a reverse scan of the vector visits children before parents.
pub struct SearchTree {
    /// The nodes, in insertion order; the root is index zero.
    pub nodes: Vec<BoardNode>,
    /// For each node, the indices of its children, in move order.
    pub kids: Vec<Vec<usize>>,
}

impl SearchTree {
    /// A fresh arena with no nodes.
    pub fn new() -> (r: SearchTree)
        ensures
            r.nodes@.len() == 0,
            r.kids@.len() == 0,
    {
        SearchTree { nodes: Vec::new(), kids: Vec::new() }
    }

    /// The number of nodes in the arena.
    pub fn count(&self) -> (r: usize)
        ensures
            r as int == self.nodes@.len(),
    {
        self.nodes.len()
    }
}

/// Node `i` has been expanded: it has one child per legal move of its
/// board, in move order, each child holding the board that move reaches and
/// standing one layer below its parent, later in the vector.
pub open spec fn expanded_node(t: SearchTree, layer: Seq<int>, i: int) -> bool {
    let b = t.nodes@[i].board@;
    let moves = available_moves(b);
    let ks = t.kids@[i]@;
    &&& ks.len() == moves.len()
    &&& forall|k: int|
        0 <= k < ks.len() ==> {
            let j = #[trigger] ks[k] as int;
            &&& i < j < t.nodes@.len()
            &&& layer[j] == layer[i] + 1
            &&& t.nodes@[j].board@ == apply_mv(b, moves[k])
        }
}

/// A fully built search tree of the given depth, with `layer[i]` the
/// breadth-first layer of node `i`: the root is node zero on layer zero,
/// every board is well formed, every node above the deepest layer is
/// expanded, and nodes on the deepest layer have no children.
pub open spec fn tree_wf(t: SearchTree, depth: int, layer: Seq<int>) -> bool {
    &&& t.nodes@.len() == t.kids@.len()
    &&& layer.len() == t.nodes@.len()
    &&& 1 <= t.nodes@.len()
    &&& layer[0] == 0
    &&& forall|i: int| 0 <= i < t.nodes@.len() ==> (#[trigger] t.nodes@[i]).board@.wf()
    &&& forall|i: int| 0 <= i < t.nodes@.len() ==> 0 <= #[trigger] layer[i] <= depth
    &&& forall|i: int|
        0 <= i < t.nodes@.len() && #[trigger] layer[i] == depth ==> t.kids@[i]@.len() == 0
    &&& forall|i: int|
        0 <= i < t.nodes@.len() && #[trigger] layer[i] < depth ==> expanded_node(t, layer, i)
}

/// A partially built tree after `s` rounds of breadth-first expansion:
/// every node sits on a layer up to `s`, nodes above layer `s` are
/// expanded, and nodes on layer `s` have no children yet.
pub open spec fn partial_tree_wf(t: SearchTree, layer: Seq<int>, s: int) -> bool {
    &&& t.nodes@.len() == t.kids@.len()
    &&& layer.len() == t.nodes@.len()
    &&& 1 <= t.nodes@.len()
    &&& layer[0] == 0
    &&& forall|i: int| 0 <= i < t.nodes@.len() ==> (#[trigger] t.nodes@[i]).board@.wf()
    &&& forall|i: int| 0 <= i < t.nodes@.len() ==> 0 <= #[trigger] layer[i] <= s
    &&& forall|i: int|
        0 <= i < t.nodes@.len() && #[trigger] layer[i] == s ==> t.kids@[i]@.len() == 0
    &&& forall|i: int|
        0 <= i < t.nodes@.len() && #[trigger] layer[i] < s ==> expanded_node(t, layer, i)
}

/// `f` lists exactly the nodes on layer `s`, in increasing index order.
pub open spec fn frontier_ok(t: SearchTree, layer: Seq<int>, s: int, f: Seq<usize>) -> bool {
    &&& forall|k: int|
        0 <= k < f.len() ==> (#[trigger] f[k] as int) < t.nodes@.len() && layer[f[k] as int] == s
    &&& forall|a: int, b: int| 0 <= a < b < f.len() ==> f[a] < f[b]
    &&& forall|i: int|
        0 <= i < t.nodes@.len() && #[trigger] layer[i] == s ==> exists|k: int|
            0 <= k < f.len() && f[k] as int == i
}

/// Every node's score is the minimax value of its board at its remaining
/// depth.
pub open spec fn tree_scored(t: SearchTree, depth: int, layer: Seq<int>) -> bool {
    forall|i: int|
        0 <= i < t.nodes@.len() ==> (#[trigger] t.nodes@[i]).score as int == minimax_value(
            t.nodes@[i].board@,
            (depth - layer[i]) as nat,
        )
}

/// The integer values of a sequence of machine scores.
pub open spec fn scores_int(scores: Seq<isize>) -> Seq<int> {
    scores.map_values(|s: isize| s as int)
}

/// The denominator of the perfect-move chance: a chance of this value or
/// more means the automated player always plays an optimal move, and a
/// chance of zero means it always plays a uniformly random legal move.
pub const PERFECT_CHANCE_SCALE: u32 = 1_000_000;

/// The automated player: searches the game tree to `search_depth` plies and
/// plays an optimal move with probability `perfect_chance` out of
/// [`PERFECT_CHANCE_SCALE`], otherwise a uniformly random legal move.
pub struct Computer {
    pub search_depth: usize,
    pub team: Team,
    pub last_node_count: usize,
    pub perfect_chance: u32,
}

impl Computer {
    /// A player that searches to the given depth for the given team.
    pub fn new(search_depth: usize, team: Team, perfect_chance: u32) -> (r: Computer)
        ensures
            r.search_depth == search_depth,
            r.team == team,
            r.perfect_chance == perfect_chance,
            r.last_node_count == 0,
    {
        Computer { search_depth, team, perfect_chance, last_node_count: 0 }
    }

    /// Every legal move of the side to move on the given board, in scan
    /// order: for each of the side's pieces in row-major order, the allowed
    /// steps to adjacent squares, then the allowed jumps.
    pub fn available_turns(&self, board: &Board) -> (r: Vec<Move>)
        requires
            board@.wf(),
        ensures
            r@ == available_moves(board@),
    {
        let mut moves: Vec<Move> = Vec::new();
        let n = board.num_cells();
        let mut i: usize = 0;
        while i < n
            invariant
                board@.wf(),
                i <= n,
                n as int == board@.cells.len(),
                moves@ == avail_to(board@, i as int),
            decreases n - i,
        {
            let square = board.cell(i);
            let mut from_team = false;
            if square.state == SquareState::Occupied {
                match square.occupant {
                    Some(piece) => {
                        if piece.team == board.current_turn() {
                            from_team = true;
                        }
                    },
                    None => {},
                }
            }
            if from_team {
                let mut square_turns = self.square_turns(board, i);
                moves.append(&mut square_turns);
                proof {
                    assert(moves@ =~= avail_to(board@, i + 1));
                }
            } else {
                proof {
                    assert(moves@ =~= avail_to(board@, i + 1));
                }
            }
            i += 1;
        }
        moves
    }

    /// The legal moves of the piece of the side to move on flat index `i`:
    /// the allowed steps to its adjacent squares, then the allowed jumps.
    #[verifier::rlimit(100)]
    fn square_turns(&self, board: &Board, i: usize) -> (r: Vec<Move>)
        requires
            board@.wf(),
            (i as int) < board@.cells.len(),
            occupied_by(board@.cells[i as int], board@.turn),
        ensures
            r@ == square_moves(board@, i as int),
    {
        let from_brd_idx = board.board_index(i);
        proof {
            lemma_adjacent_cells_elements(board@, from_brd_idx);
            lemma_jumpable_cells_elements(board@, from_brd_idx);
        }
        let adj = board.adjacent_indices(from_brd_idx).unwrap();
        let jump = board.jumpable_indices(from_brd_idx).unwrap();

        let mut moves: Vec<Move> = Vec::new();

        let mut k: usize = 0;
        while k < adj.len()
            invariant
                board@.wf(),
                board@.in_bounds(from_brd_idx),
                k <= adj@.len(),
                adj@ == board@.adjacent_cells(from_brd_idx),
                forall|q: int| 0 <= q < adj@.len() ==> #[trigger] adj@[q] < board@.cells.len(),
                moves@ == moves_thru(board@, from_brd_idx, adj@, MoveType::Move, k as int),
            decreases adj@.len() - k,
        {
            let to_brd_idx = board.board_index(adj[k]);
            if board.can_move(from_brd_idx, to_brd_idx) == Moveable::Allowed {
                moves.push(Move::new(from_brd_idx, to_brd_idx, MoveType::Move));
            }
            proof {
                assert(moves@ =~= moves_thru(board@, from_brd_idx, adj@, MoveType::Move, k + 1));
            }
            k += 1;
        }

        let mut k: usize = 0;
        while k < jump.len()
            invariant
                board@.wf(),
                board@.in_bounds(from_brd_idx),
                k <= jump@.len(),
                adj@ == board@.adjacent_cells(from_brd_idx),
                jump@ == board@.jumpable_cells(from_brd_idx),
                forall|q: int| 0 <= q < jump@.len() ==> #[trigger] jump@[q] < board@.cells.len(),
                moves@ == moves_thru(
                    board@,
                    from_brd_idx,
                    adj@,
                    MoveType::Move,
                    adj@.len() as int,
                ) + moves_thru(board@, from_brd_idx, jump@, MoveType::Jump, k as int),
            decreases jump@.len() - k,
        {
            let to_brd_idx = board.board_index(jump[k]);
            if board.can_move(from_brd_idx, to_brd_idx) == Moveable::Allowed {
                moves.push(Move::new(from_brd_idx, to_brd_idx, MoveType::Jump));
            }
            proof {
                assert(moves@ =~= moves_thru(
                    board@,
                    from_brd_idx,
                    adj@,
                    MoveType::Move,
                    adj@.len() as int,
                ) + moves_thru(board@, from_brd_idx, jump@, MoveType::Jump, k + 1));
            }
            k += 1;
        }

        moves
    }

    /// The best of the given child scores for the side to move on `board`:
    /// the least score when White is to move, the greatest when Black is.
    pub fn best_score(board: &Board, children_scores: Vec<isize>) -> (r: isize)
        requires
            children_scores@.len() >= 1,
        ensures
            board@.turn == Team::White ==> r as int == seq_min(scores_int(children_scores@)),
            board@.turn != Team::White ==> r as int == seq_max(scores_int(children_scores@)),
    {
        let minimise = match board.current_turn() {
            Team::White => true,
            Team::Black => false,
        };
        let mut best = children_scores[0];
        let mut k: usize = 1;
        proof {
            assert(scores_int(children_scores@.take(1)) =~= seq![children_scores@[0] as int]);
        }
        while k < children_scores.len()
            invariant
                1 <= k <= children_scores@.len(),
                minimise == (board@.turn == Team::White),
                minimise ==> best as int == seq_min(scores_int(children_scores@.take(k as int))),
                !minimise ==> best as int == seq_max(scores_int(children_scores@.take(k as int))),
            decreases children_scores@.len() - k,
        {
            proof {
                let prev = scores_int(children_scores@.take(k as int));
                let next = scores_int(children_scores@.take(k + 1));
                assert(next.drop_last() =~= prev);
                assert(next.last() == children_scores@[k as int]);
            }
            if minimise {
                if children_scores[k] < best {
                    best = children_scores[k];
                }
            } else {
                if children_scores[k] > best {
                    best = children_scores[k];
                }
            }
            k += 1;
        }
        proof {
            assert(children_scores@.take(children_scores@.len() as int) =~= children_scores@);
        }
        best
    }

    /// Insert one child node per legal move of the given node's board, link
    /// the children under it in move order, and return the new indices.
    pub fn expand_node(&self, tree: &mut SearchTree, node: usize) -> (r: Vec<usize>)
        requires
            old(tree).nodes@.len() == old(tree).kids@.len(),
            (node as int) < old(tree).nodes@.len(),
            forall|j: int|
                0 <= j < old(tree).nodes@.len() ==> (#[trigger] old(tree).nodes@[j]).board@.wf(),
        ensures
            ({
                let oldn = old(tree).nodes@.len() as int;
                let b = old(tree).nodes@[node as int].board@;
                let moves = available_moves(b);
                &&& final(tree).nodes@.len() == oldn + moves.len()
                &&& final(tree).kids@.len() == final(tree).nodes@.len()
                &&& forall|j: int|
                    0 <= j < oldn ==> final(tree).nodes@[j] == old(tree).nodes@[j]
                &&& forall|j: int|
                    0 <= j < oldn && j != node as int ==> final(tree).kids@[j]
                        == old(tree).kids@[j]
                &&& final(tree).kids@[node as int]@.len() == moves.len()
                &&& forall|k: int|
                    0 <= k < moves.len() ==> #[trigger] final(tree).kids@[node as int]@[k] as int
                        == oldn + k
                &&& forall|k: int|
                    0 <= k < moves.len() ==> (#[trigger] final(tree).nodes@[oldn + k]).board@
                        == apply_mv(b, moves[k]) && final(tree).nodes@[oldn + k].board@.wf()
                        && final(tree).nodes@[oldn + k].score == 0isize
                        && final(tree).kids@[oldn + k]@.len() == 0
                &&& r@.len() == moves.len()
                &&& forall|k: int| 0 <= k < moves.len() ==> #[trigger] r@[k] as int == oldn + k
            }),
    {
        let ghost b = tree.nodes@[node as int].board@;
        let ghost oldn = tree.nodes@.len() as int;
        let moves = self.available_turns(&tree.nodes[node].board);
        let mut ids: Vec<usize> = Vec::new();
        let mut k: usize = 0;
        while k < moves.len()
            invariant
                b.wf(),
                k <= moves@.len(),
                moves@ == available_moves(b),
                oldn == old(tree).nodes@.len(),
                (node as int) < oldn,
                tree.nodes@.len() == oldn + k,
                tree.kids@.len() == tree.nodes@.len(),
                forall|j: int| 0 <= j < oldn ==> tree.nodes@[j] == old(tree).nodes@[j],
                forall|j: int| 0 <= j < oldn ==> tree.kids@[j] == old(tree).kids@[j],
                old(tree).nodes@[node as int].board@ == b,
                forall|q: int|
                    0 <= q < k ==> (#[trigger] tree.nodes@[oldn + q]).board@ == apply_mv(
                        b,
                        moves@[q],
                    ) && tree.nodes@[oldn + q].board@.wf() && tree.nodes@[oldn + q].score
                        == 0isize && tree.kids@[oldn + q]@.len() == 0,
                ids@.len() == k,
                forall|q: int| 0 <= q < k ==> #[trigger] ids@[q] as int == oldn + q,
            decreases moves@.len() - k,
        {
            let m = moves[k];
            proof {
                lemma_available_move_ok(b, k as int);
            }
            let next_board = match m.mv_type {
                MoveType::Move => tree.nodes[node].board.apply_move(m.from, m.to),
                MoveType::Jump => tree.nodes[node].board.apply_jump(m.from, m.to),
            };
            let id = tree.nodes.len();
            tree.nodes.push(BoardNode::brd(next_board));
            tree.kids.push(Vec::new());
            ids.push(id);
            k += 1;
        }
        let mut links: Vec<usize> = Vec::new();
        let mut k: usize = 0;
        while k < ids.len()
            invariant
                k <= ids@.len(),
                links@ == ids@.take(k as int),
            decreases ids@.len() - k,
        {
            links.push(ids[k]);
            proof {
                assert(links@ =~= ids@.take(k + 1));
            }
            k += 1;
        }
        proof {
            assert(links@ =~= ids@);
        }
        tree.kids[node] = links;
        ids
    }

    /// Expand every node of the given frontier and return the newly inserted
    /// layer of nodes, in parent order then per-parent move order.
    #[verifier::rlimit(100)]
    fn expand_layer(
        &self,
        tree: &mut SearchTree,
        nodes: Vec<usize>,
        layer: Ghost<Seq<int>>,
        s: Ghost<int>,
    ) -> (r: (Vec<usize>, Ghost<Seq<int>>))
        requires
            0 <= s@,
            partial_tree_wf(*old(tree), layer@, s@),
            frontier_ok(*old(tree), layer@, s@, nodes@),
        ensures
            partial_tree_wf(*final(tree), r.1@, s@ + 1),
            frontier_ok(*final(tree), r.1@, s@ + 1, r.0@),
            old(tree).nodes@.len() <= final(tree).nodes@.len(),
            forall|j: int|
                0 <= j < old(tree).nodes@.len() ==> final(tree).nodes@[j] == old(tree).nodes@[j],
            forall|j: int| 0 <= j < old(tree).nodes@.len() ==> r.1@[j] == layer@[j],
            ({
                let fb = Seq::new(
                    nodes@.len() as nat,
                    |k: int| old(tree).nodes@[nodes@[k] as int].board@,
                );
                &&& final(tree).nodes@.len() == old(tree).nodes@.len() + expand_boards(fb).len()
                &&& r.0@.len() == expand_boards(fb).len()
                &&& forall|k: int|
                    0 <= k < r.0@.len() ==> (#[trigger] final(tree).nodes@[r.0@[k] as int]).board@
                        == expand_boards(fb)[k]
            }),
    {
        let ghost oldn0 = old(tree).nodes@.len() as int;
        let ghost s0 = s@;
        let ghost fb = Seq::new(
            nodes@.len() as nat,
            |k: int| old(tree).nodes@[nodes@[k] as int].board@,
        );
        let mut new_frontier: Vec<usize> = Vec::new();
        let ghost mut nl: Seq<int> = layer@;
        proof {
            reveal(expand_boards);
            assert(expand_boards(fb.take(0)).len() == 0);
        }
        let mut q: usize = 0;
        #[verifier::loop_isolation(false)]
        while q < nodes.len()
            invariant
                0 <= s0,
                q <= nodes@.len(),
                // facts about the unchanging input frontier
                forall|k: int|
                    0 <= k < nodes@.len() ==> (#[trigger] nodes@[k] as int) < oldn0
                        && layer@[nodes@[k] as int] == s0,
                forall|a: int, b: int| 0 <= a < b < nodes@.len() ==> nodes@[a] < nodes@[b],
                // shape of the growing tree
                tree.nodes@.len() == tree.kids@.len(),
                nl.len() == tree.nodes@.len(),
                oldn0 <= tree.nodes@.len(),
                forall|j: int| 0 <= j < oldn0 ==> tree.nodes@[j] == old(tree).nodes@[j],
                forall|j: int| 0 <= j < oldn0 ==> nl[j] == layer@[j],
                forall|j: int| oldn0 <= j < tree.nodes@.len() ==> #[trigger] nl[j] == s0 + 1,
                forall|j: int|
                    oldn0 <= j < tree.nodes@.len() ==> (#[trigger] tree.kids@[j]@).len() == 0,
                forall|j: int|
                    0 <= j < tree.nodes@.len() ==> (#[trigger] tree.nodes@[j]).board@.wf(),
                // the new frontier is exactly the appended nodes, in order,
                // and their boards form the next breadth-first layer of the
                // processed prefix
                fb == Seq::new(
                    nodes@.len() as nat,
                    |k: int| old(tree).nodes@[nodes@[k] as int].board@,
                ),
                tree.nodes@.len() == oldn0 + expand_boards(fb.take(q as int)).len(),
                forall|x: int|
                    0 <= x < tree.nodes@.len() - oldn0 ==> (#[trigger] tree.nodes@[oldn0
                        + x]).board@ == expand_boards(fb.take(q as int))[x],
                new_frontier@.len() == tree.nodes@.len() - oldn0,
                forall|k: int|
                    0 <= k < new_frontier@.len() ==> #[trigger] new_frontier@[k] as int == oldn0
                        + k,
                // processed frontier nodes are expanded, unprocessed ones untouched
                forall|p: int|
                    0 <= p < q ==> expanded_node(*tree, nl, #[trigger] nodes@[p] as int),
                forall|p: int|
                    q <= p < nodes@.len() ==> (#[trigger] tree.kids@[nodes@[p] as int]@).len()
                        == 0,
                // nodes expanded in earlier rounds stay expanded
                forall|i: int|
                    0 <= i < oldn0 && #[trigger] layer@[i] < s0 ==> expanded_node(*tree, nl, i),
            decreases nodes@.len() - q,
        {
            let nid = nodes[q];
            let ghost before = *tree;
            let ghost beforen = tree.nodes@.len() as int;
            let mut ids = self.expand_node(tree, nid);
            proof {
                nl = nl + Seq::new((tree.nodes@.len() - beforen) as nat, |x: int| s0 + 1);
            }
            new_frontier.append(&mut ids);
            proof {
                reveal(children_boards);
                reveal(expand_boards);
                let b = before.nodes@[nid as int].board@;
                let moves = available_moves(b);
                let newn = tree.nodes@.len() as int;
                assert(fb[q as int] == b);
                assert(fb.take(q + 1).drop_last() =~= fb.take(q as int));
                assert(fb.take(q + 1).last() == b);
                assert(expand_boards(fb.take(q + 1)) == expand_boards(fb.take(q as int))
                    + children_boards(b));
                assert forall|x: int|
                    0 <= x < newn - oldn0 implies (#[trigger] tree.nodes@[oldn0 + x]).board@
                    == expand_boards(fb.take(q + 1))[x] by {
                    if x < beforen - oldn0 {
                        assert(tree.nodes@[oldn0 + x] == before.nodes@[oldn0 + x]);
                    } else {
                        let k = oldn0 + x - beforen;
                        assert(tree.nodes@[beforen + k].board@ == apply_mv(b, moves[k]));
                        assert(children_boards(b)[k] == apply_mv(b, moves[k]));
                    }
                }
                // the nodes appended in this step carry layer s0 + 1, empty
                // child lists, and the boards the moves of `nid` reach
                assert forall|j: int|
                    oldn0 <= j < tree.nodes@.len() implies #[trigger] nl[j] == s0 + 1 by {
                    if j >= beforen {
                        assert(nl[j] == s0 + 1);
                    }
                }
                assert forall|j: int|
                    oldn0 <= j < tree.nodes@.len() implies (#[trigger] tree.kids@[j]@).len()
                    == 0 by {
                    if j < beforen {
                        assert(tree.kids@[j] == before.kids@[j]);
                        assert(before.kids@[j]@.len() == 0);
                    } else {
                        assert(tree.nodes@[beforen + (j - beforen)].board@ == apply_mv(
                            b,
                            moves[j - beforen],
                        ));
                        assert(tree.kids@[beforen + (j - beforen)]@.len() == 0);
                    }
                }
                assert forall|j: int|
                    0 <= j < tree.nodes@.len() implies (
                #[trigger] tree.nodes@[j]).board@.wf() by {
                    if j < beforen {
                        assert(tree.nodes@[j] == before.nodes@[j]);
                        assert(before.nodes@[j].board@.wf());
                    } else {
                        assert(tree.nodes@[beforen + (j - beforen)].board@ == apply_mv(
                            b,
                            moves[j - beforen],
                        ));
                        assert(tree.nodes@[beforen + (j - beforen)].board@.wf());
                    }
                }
                assert forall|p: int| 0 <= p < q + 1 implies expanded_node(
                    *tree,
                    nl,
                    #[trigger] nodes@[p] as int,
                ) by {
                    if p < q {
                        let i = nodes@[p] as int;
                        assert(nodes@[p] < nodes@[q as int]);
                        assert(expanded_node(before, nl.take(beforen), i));
                        assert(tree.kids@[i] == before.kids@[i]);
                        assert forall|k: int| 0 <= k < tree.kids@[i]@.len() implies {
                            let j = #[trigger] tree.kids@[i]@[k] as int;
                            &&& i < j < tree.nodes@.len()
                            &&& nl[j] == nl[i] + 1
                            &&& tree.nodes@[j].board@ == apply_mv(
                                tree.nodes@[i].board@,
                                available_moves(tree.nodes@[i].board@)[k],
                            )
                        } by {
                            let j = tree.kids@[i]@[k] as int;
                            assert(j < beforen);
                            assert(tree.nodes@[j] == before.nodes@[j]);
                        }
                    } else {
                        let i = nodes@[p] as int;
                        assert(nl[i] == s0);
                        assert(tree.kids@[i]@.len() == moves.len());
                        assert forall|k: int| 0 <= k < tree.kids@[i]@.len() implies {
                            let j = #[trigger] tree.kids@[i]@[k] as int;
                            &&& i < j < tree.nodes@.len()
                            &&& nl[j] == nl[i] + 1
                            &&& tree.nodes@[j].board@ == apply_mv(
                                tree.nodes@[i].board@,
                                available_moves(tree.nodes@[i].board@)[k],
                            )
                        } by {
                            assert(tree.kids@[i]@[k] as int == beforen + k);
                        }
                    }
                }
                assert forall|i: int|
                    0 <= i < oldn0 && #[trigger] layer@[i] < s0 implies expanded_node(
                    *tree,
                    nl,
                    i,
                ) by {
                    assert(i != nid as int);
                    assert(expanded_node(before, nl.take(beforen), i));
                    assert(tree.kids@[i] == before.kids@[i]);
                    assert forall|k: int| 0 <= k < tree.kids@[i]@.len() implies {
                        let j = #[trigger] tree.kids@[i]@[k] as int;
                        &&& i < j < tree.nodes@.len()
                        &&& nl[j] == nl[i] + 1
                        &&& tree.nodes@[j].board@ == apply_mv(
                            tree.nodes@[i].board@,
                            available_moves(tree.nodes@[i].board@)[k],
                        )
                    } by {
                        let j = tree.kids@[i]@[k] as int;
                        assert(j < beforen);
                        assert(tree.nodes@[j] == before.nodes@[j]);
                    }
                }
            }
            q += 1;
        }
        proof {
            assert forall|i: int| 0 <= i < tree.nodes@.len() implies 0 <= #[trigger] nl[i] <= s0
                + 1 by {
                if i < oldn0 {
                    assert(nl[i] == layer@[i]);
                } else {
                    assert(tree.kids@[i]@.len() >= 0);
                    assert(nl[i] == s0 + 1);
                }
            }
            assert forall|i: int|
                0 <= i < tree.nodes@.len() && #[trigger] nl[i] < s0 + 1 implies expanded_node(
                *tree,
                nl,
                i,
            ) by {
                if i >= oldn0 {
                    assert(tree.kids@[i]@.len() >= 0);
                    assert(nl[i] == s0 + 1);
                }
                assert(i < oldn0);
                if layer@[i] == s0 {
                    let k = choose|k: int| 0 <= k < nodes@.len() && nodes@[k] as int == i;
                    assert(expanded_node(*tree, nl, nodes@[k] as int));
                }
            }
            assert(partial_tree_wf(*tree, nl, s0 + 1));
            assert forall|k: int|
                0 <= k < new_frontier@.len() implies (#[trigger] new_frontier@[k] as int)
                < tree.nodes@.len() && nl[new_frontier@[k] as int] == s0 + 1 by {
                assert(new_frontier@[k] as int == oldn0 + k);
            }
            assert forall|i: int|
                0 <= i < tree.nodes@.len() && #[trigger] nl[i] == s0 + 1 implies exists|k: int|
                0 <= k < new_frontier@.len() && new_frontier@[k] as int == i by {
                assert(oldn0 <= i);
                assert(new_frontier@[i - oldn0] as int == i);
            }
            assert(frontier_ok(*tree, nl, s0 + 1, new_frontier@));
            reveal(expand_boards);
            assert(fb.take(nodes@.len() as int) =~= fb);
            assert forall|k: int|
                0 <= k < new_frontier@.len() implies (#[trigger] tree.nodes@[new_frontier@[k] as int]).board@
                == expand_boards(fb)[k] by {
                assert(new_frontier@[k] as int == oldn0 + k);
                assert(tree.nodes@[oldn0 + k].board@ == expand_boards(fb.take(
                    nodes@.len() as int,
                ))[k]);
            }
        }
        (new_frontier, Ghost(nl))
    }

    /// Build the tree of future boards to the configured search depth,
    /// breadth first, and return the root index.
    pub fn gen_tree(&self, tree: &mut SearchTree, board: Board) -> (root: usize)
        requires
            old(tree).nodes@.len() == 0,
            old(tree).kids@.len() == 0,
            board@.wf(),
        ensures
            root == 0,
            final(tree).nodes@.len() >= 1,
            final(tree).nodes@[0].board@ == board@,
            final(tree).nodes@.len() == tree_size(board@, self.search_depth as nat),
            exists|layer: Seq<int>| #[trigger] tree_wf(*final(tree), self.search_depth as int, layer),
    {
        let ghost bv = board@;
        tree.nodes.push(BoardNode::brd(board));
        tree.kids.push(Vec::new());
        let root: usize = 0;

        let mut nodes: Vec<usize> = Vec::new();
        nodes.push(root);
        let ghost mut layer: Seq<int> = seq![0int];
        proof {
            reveal(level_boards);
            reveal(tree_size);
            assert forall|i: int|
                0 <= i < tree.nodes@.len() && #[trigger] layer[i] == 0 implies exists|k: int|
                0 <= k < nodes@.len() && nodes@[k] as int == i by {
                assert(nodes@[0] as int == i);
            }
        }

        let mut s: usize = 0;
        while s < self.search_depth
            invariant
                s <= self.search_depth,
                partial_tree_wf(*tree, layer, s as int),
                frontier_ok(*tree, layer, s as int, nodes@),
                tree.nodes@[0].board@ == bv,
                tree.nodes@.len() == tree_size(bv, s as nat),
                nodes@.len() == level_boards(bv, s as nat).len(),
                forall|k: int|
                    0 <= k < nodes@.len() ==> (#[trigger] tree.nodes@[nodes@[k] as int]).board@
                        == level_boards(bv, s as nat)[k],
            ensures
                s <= self.search_depth,
                partial_tree_wf(*tree, layer, s as int),
                frontier_ok(*tree, layer, s as int, nodes@),
                tree.nodes@[0].board@ == bv,
                tree.nodes@.len() == tree_size(bv, s as nat),
                nodes@.len() == level_boards(bv, s as nat).len(),
                s == self.search_depth || nodes@.len() == 0,
            decreases self.search_depth - s,
        {
            if nodes.len() == 0 {
                break;
            }
            let ghost before = *tree;
            let ghost prev_frontier = nodes@;
            let res = self.expand_layer(tree, nodes, Ghost(layer), Ghost(s as int));
            nodes = res.0;
            proof {
                layer = res.1@;
                reveal(level_boards);
                reveal(tree_size);
                let fb = Seq::new(
                    prev_frontier.len() as nat,
                    |k: int| before.nodes@[prev_frontier[k] as int].board@,
                );
                assert(fb =~= level_boards(bv, s as nat));
                assert(expand_boards(fb) == level_boards(bv, (s + 1) as nat));
            }
            s += 1;
        }

        proof {
            assert forall|i: int|
                0 <= i < tree.nodes@.len() && #[trigger] layer[i] < self.search_depth as int implies expanded_node(
                *tree,
                layer,
                i,
            ) by {
                if layer[i] == s as int {
                    let k = choose|k: int| 0 <= k < nodes@.len() && nodes@[k] as int == i;
                    assert(false);
                }
            }
            assert(tree_wf(*tree, self.search_depth as int, layer));
            if s < self.search_depth {
                // the search stopped early on an empty frontier: the later
                // layers are empty and the size has already stabilised
                lemma_tree_size_stops(bv, s as nat, self.search_depth as nat);
            }
        }
        root
    }

    /// The indices of the nodes without children, in ascending order: the
    /// true leaves of the tree, whether they sit on the deepest layer or
    /// ran out of legal moves earlier.
    pub fn get_leaf_nodes(&self, tree: &SearchTree) -> (r: Vec<usize>)
        requires
            tree.nodes@.len() == tree.kids@.len(),
        ensures
            forall|k: int|
                0 <= k < r@.len() ==> (#[trigger] r@[k] as int) < tree.nodes@.len()
                    && tree.kids@[r@[k] as int]@.len() == 0,
            forall|i: int|
                0 <= i < tree.nodes@.len() && (#[trigger] tree.kids@[i]@).len() == 0
                    ==> r@.contains(i as usize),
            forall|a: int, b: int| 0 <= a < b < r@.len() ==> r@[a] < r@[b],
    {
        let mut leaves: Vec<usize> = Vec::new();
        let mut i: usize = 0;
        while i < tree.nodes.len()
            invariant
                i <= tree.nodes@.len(),
                tree.nodes@.len() == tree.kids@.len(),
                forall|k: int|
                    0 <= k < leaves@.len() ==> (#[trigger] leaves@[k] as int)
                        < tree.nodes@.len() && tree.kids@[leaves@[k] as int]@.len() == 0,
                forall|k: int| 0 <= k < leaves@.len() ==> #[trigger] leaves@[k] < i,
                forall|a: int, b: int| 0 <= a < b < leaves@.len() ==> leaves@[a] < leaves@[b],
                forall|j: int|
                    0 <= j < i && (#[trigger] tree.kids@[j]@).len() == 0 ==> leaves@.contains(
                        j as usize,
                    ),
            decreases tree.nodes@.len() - i,
        {
            let ghost prev = leaves@;
            if tree.kids[i].len() == 0 {
                leaves.push(i);
            }
            proof {
                assert forall|j: int|
                    0 <= j < i + 1 && (#[trigger] tree.kids@[j]@).len() == 0 implies leaves@
                    .contains(j as usize) by {
                    if j < i {
                        let q = choose|q: int| 0 <= q < prev.len() && prev[q] == j as usize;
                        assert(leaves@[q] == j as usize);
                    } else {
                        assert(leaves@[leaves@.len() - 1] == j as usize);
                    }
                }
            }
            i += 1;
        }
        leaves
    }

    /// Set the score of each of the given nodes to the material score of its
    /// board, leaving every other node untouched. Used to score the leaves
    /// before propagation.
    pub fn insert_board_scores(&self, tree: &mut SearchTree, nodes: Vec<usize>)
        requires
            old(tree).nodes@.len() == old(tree).kids@.len(),
            forall|k: int|
                0 <= k < nodes@.len() ==> (#[trigger] nodes@[k] as int)
                    < old(tree).nodes@.len(),
            forall|j: int|
                0 <= j < old(tree).nodes@.len() ==> (#[trigger] old(tree).nodes@[j]).board@.wf(),
        ensures
            final(tree).nodes@.len() == old(tree).nodes@.len(),
            final(tree).kids@ == old(tree).kids@,
            forall|j: int|
                0 <= j < old(tree).nodes@.len() ==> (#[trigger] final(tree).nodes@[j]).board@
                    == old(tree).nodes@[j].board@,
            forall|j: int|
                0 <= j < old(tree).nodes@.len() && nodes@.contains(j as usize) ==> (
                #[trigger] final(tree).nodes@[j]).score as int
                    == old(tree).nodes@[j].board@.score_v(),
            forall|j: int|
                0 <= j < old(tree).nodes@.len() && !nodes@.contains(j as usize) ==> (
                #[trigger] final(tree).nodes@[j]).score == old(tree).nodes@[j].score,
    {
        let mut k: usize = 0;
        while k < nodes.len()
            invariant
                k <= nodes@.len(),
                tree.nodes@.len() == old(tree).nodes@.len(),
                tree.kids@ == old(tree).kids@,
                forall|q: int|
                    0 <= q < nodes@.len() ==> (#[trigger] nodes@[q] as int)
                        < old(tree).nodes@.len(),
                forall|j: int|
                    0 <= j < old(tree).nodes@.len() ==> (#[trigger] tree.nodes@[j]).board@
                        == old(tree).nodes@[j].board@ && tree.nodes@[j].board@.wf(),
                forall|j: int|
                    0 <= j < old(tree).nodes@.len() && nodes@.take(k as int).contains(j as usize)
                        ==> (#[trigger] tree.nodes@[j]).score as int
                        == old(tree).nodes@[j].board@.score_v(),
                forall|j: int|
                    0 <= j < old(tree).nodes@.len() && !nodes@.take(k as int).contains(
                        j as usize,
                    ) ==> (#[trigger] tree.nodes@[j]).score == old(tree).nodes@[j].score,
            decreases nodes@.len() - k,
        {
            let i = nodes[k];
            let s = tree.nodes[i].board.score();
            tree.nodes[i].score = s;
            proof {
                assert(nodes@.take(k + 1) =~= nodes@.take(k as int).push(nodes@[k as int]));
                vstd::std_specs::vec::axiom_spec_len(&tree.nodes);
                assert(old(tree).nodes@.len() <= usize::MAX);
                assert forall|j: int|
                    0 <= j < old(tree).nodes@.len() && nodes@.take(k + 1).contains(j as usize)
                        implies (#[trigger] tree.nodes@[j]).score as int
                    == old(tree).nodes@[j].board@.score_v() by {
                    assert(nodes@.take(k + 1)[k as int] == i);
                    if j != i as int {
                        let q = choose|q: int|
                            0 <= q < nodes@.take(k + 1).len() && #[trigger] nodes@.take(k + 1)[q]
                                == j as usize;
                        if q == k as int {
                            assert(j as usize == i);
                            assert(j == i as int);
                        }
                        assert(q != k as int);
                        assert(nodes@.take(k as int)[q] == j as usize);
                        assert(nodes@.take(k as int).contains(j as usize));
                    }
                }
                assert forall|j: int|
                    0 <= j < old(tree).nodes@.len() && !nodes@.take(k + 1).contains(j as usize)
                        implies (#[trigger] tree.nodes@[j]).score
                    == old(tree).nodes@[j].score by {
                    assert(nodes@.take(k + 1)[k as int] == i);
                    if j == i as int {
                        assert(nodes@.take(k + 1).contains(j as usize));
                    }
                    assert(j != i as int);
                    assert forall|q: int|
                        0 <= q < nodes@.take(k as int).len() implies nodes@.take(k as int)[q]
                        != j as usize by {
                        assert(nodes@.take(k + 1)[q] == nodes@.take(k as int)[q]);
                        if nodes@.take(k + 1)[q] == j as usize {
                            assert(nodes@.take(k + 1).contains(j as usize));
                        }
                    }
                }
            }
            k += 1;
        }
        proof {
            assert(nodes@.take(nodes@.len() as int) =~= nodes@);
        }
    }

    /// Propagate scores up the tree by minimax: in one pass from the last
    /// node toward the root, give every node with children the best of its
    /// children's scores for its side to move. Since children always stand
    /// after their parent, each node is settled before it is consulted, and
    /// every node ends up holding the minimax value of its board.
    #[verifier::rlimit(100)]
    pub fn propagate_scores(&self, tree: SearchTree, root: usize) -> (r: SearchTree)
        requires
            root == 0,
            exists|layer: Seq<int>| #[trigger] tree_wf(tree, self.search_depth as int, layer),
            forall|i: int|
                0 <= i < tree.nodes@.len() && (#[trigger] tree.kids@[i]@).len() == 0
                    ==> tree.nodes@[i].score as int == tree.nodes@[i].board@.score_v(),
        ensures
            r.nodes@.len() == tree.nodes@.len(),
            r.kids@ == tree.kids@,
            forall|j: int|
                0 <= j < tree.nodes@.len() ==> (#[trigger] r.nodes@[j]).board@
                    == tree.nodes@[j].board@,
            exists|layer: Seq<int>|
                #[trigger] tree_wf(r, self.search_depth as int, layer) && tree_scored(
                    r,
                    self.search_depth as int,
                    layer,
                ),
    {
        let ghost depth = self.search_depth as int;
        let ghost layer = choose|layer: Seq<int>| tree_wf(tree, depth, layer);
        let mut new_tree = tree;
        let mut i: usize = new_tree.nodes.len();
        while i > 0
            invariant
                i <= new_tree.nodes@.len(),
                new_tree.nodes@.len() == tree.nodes@.len(),
                new_tree.kids@ == tree.kids@,
                forall|j: int|
                    0 <= j < tree.nodes@.len() ==> (#[trigger] new_tree.nodes@[j]).board@
                        == tree.nodes@[j].board@,
                tree_wf(new_tree, depth, layer),
                forall|j: int|
                    0 <= j < new_tree.nodes@.len() && (#[trigger] new_tree.kids@[j]@).len() == 0
                        ==> new_tree.nodes@[j].score as int
                        == new_tree.nodes@[j].board@.score_v(),
                forall|j: int|
                    i <= j < new_tree.nodes@.len() ==> (#[trigger] new_tree.nodes@[j]).score
                        as int == minimax_value(
                        new_tree.nodes@[j].board@,
                        (depth - layer[j]) as nat,
                    ),
            decreases i,
        {
            i -= 1;
            let ghost bv_i = new_tree.nodes@[i as int].board@;
            let ghost mvs = available_moves(bv_i);
            let num_children = tree_kids_len(&new_tree, i);
            if num_children > 0 {
                proof {
                    assert(layer[i as int] < depth);
                    assert(expanded_node(new_tree, layer, i as int));
                    lemma_minimax_children_len(bv_i, mvs, (depth - layer[i as int] - 1) as nat);
                }
                let ghost d1 = (depth - layer[i as int] - 1) as nat;
                let mut children_scores: Vec<isize> = Vec::new();
                let mut k: usize = 0;
                while k < num_children
                    invariant
                        k <= num_children,
                        i < new_tree.nodes@.len(),
                        num_children as int == new_tree.kids@[i as int]@.len(),
                        bv_i == new_tree.nodes@[i as int].board@,
                        mvs == available_moves(bv_i),
                        expanded_node(new_tree, layer, i as int),
                        d1 == (depth - layer[i as int] - 1) as nat,
                        layer[i as int] < depth,
                        new_tree.nodes@.len() == layer.len(),
                        new_tree.nodes@.len() == new_tree.kids@.len(),
                        forall|j: int|
                            i < j < new_tree.nodes@.len() ==> (
                            #[trigger] new_tree.nodes@[j]).score as int == minimax_value(
                                new_tree.nodes@[j].board@,
                                (depth - layer[j]) as nat,
                            ),
                        children_scores@.len() == k,
                        forall|q: int|
                            0 <= q < k ==> #[trigger] children_scores@[q] as int
                                == minimax_children(bv_i, mvs, d1)[q],
                    decreases num_children - k,
                {
                    let child = tree_kid_at(&new_tree, i, k);
                    proof {
                        lemma_minimax_children_index(bv_i, mvs, d1, k as int);
                    }
                    children_scores.push(tree_score_at(&new_tree, child));
                    k += 1;
                }
                proof {
                    lemma_minimax_children_len(bv_i, mvs, d1);
                    assert(scores_int(children_scores@) =~= minimax_children(bv_i, mvs, d1));
                }
                let best = Computer::best_score(&new_tree.nodes[i].board, children_scores);
                let ghost before = new_tree;
                new_tree.nodes[i].score = best;
                proof {
                    lemma_tree_wf_same_shape(before, new_tree, depth, layer);
                    assert(new_tree.nodes@[i as int].score as int == minimax_value(
                        bv_i,
                        (depth - layer[i as int]) as nat,
                    ));
                }
            } else {
                proof {
                    if layer[i as int] < depth {
                        assert(expanded_node(new_tree, layer, i as int));
                        assert(mvs.len() == 0);
                    }
                    assert(new_tree.nodes@[i as int].score as int == minimax_value(
                        bv_i,
                        (depth - layer[i as int]) as nat,
                    ));
                }
            }
        }
        new_tree
    }
}

/// The number of children of node `i`.
fn tree_kids_len(t: &SearchTree, i: usize) -> (r: usize)
    requires
        (i as int) < t.kids@.len(),
    ensures
        r as int == t.kids@[i as int]@.len(),
{
    t.kids[i].len()
}

/// The `k`-th child of node `i`.
fn tree_kid_at(t: &SearchTree, i: usize, k: usize) -> (r: usize)
    requires
        (i as int) < t.kids@.len(),
        (k as int) < t.kids@[i as int]@.len(),
    ensures
        r == t.kids@[i as int]@[k as int],
{
    t.kids[i][k]
}

/// The score stored at node `i`.
fn tree_score_at(t: &SearchTree, i: usize) -> (r: isize)
    requires
        (i as int) < t.nodes@.len(),
    ensures
        r == t.nodes@[i as int].score,
{
    t.nodes[i].score
}

/// A tree with the same boards and the same child lists as a well-formed
/// tree is itself well formed: the scores play no part in the shape.
proof fn lemma_tree_wf_same_shape(t1: SearchTree, t2: SearchTree, depth: int, layer: Seq<int>)
    requires
        tree_wf(t1, depth, layer),
        t2.nodes@.len() == t1.nodes@.len(),
        t2.kids@ == t1.kids@,
        forall|j: int|
            0 <= j < t1.nodes@.len() ==> (#[trigger] t2.nodes@[j]).board@ == t1.nodes@[j].board@,
    ensures
        tree_wf(t2, depth, layer),
{
    assert forall|i: int|
        0 <= i < t2.nodes@.len() && #[trigger] layer[i] < depth implies expanded_node(
        t2,
        layer,
        i,
    ) by {
        assert(expanded_node(t1, layer, i));
        assert forall|k: int| 0 <= k < t2.kids@[i]@.len() implies {
            let j = #[trigger] t2.kids@[i]@[k] as int;
            &&& i < j < t2.nodes@.len()
            &&& layer[j] == layer[i] + 1
            &&& t2.nodes@[j].board@ == apply_mv(
                t2.nodes@[i].board@,
                available_moves(t2.nodes@[i].board@)[k],
            )
        } by {
            let j = t2.kids@[i]@[k] as int;
            assert(t2.nodes@[j].board@ == t1.nodes@[j].board@);
            assert(t2.nodes@[i].board@ == t1.nodes@[i].board@);
        }
    }
}

/// Relies on `rand::Rng::gen_range` over the range `0..n`, drawn from the
/// thread-local generator: a uniformly distributed value below `n`. Nothing
/// is assumed of the result beyond its bound.
#[verifier::external_body]
fn random_below(n: usize) -> (r: usize)
    requires
        n > 0,
    ensures
        r < n,
{
    rand::thread_rng().gen_range(0..n)
}

impl Computer {
    /// Decide a move for the side to move on `brd` by bounded-depth minimax.
    ///
    /// Builds and scores the search tree, then returns one of the boards a
    /// single legal move away, or nothing when the search depth is zero or
    /// the side to move has no legal move. With probability
    /// `perfect_chance` out of [`PERFECT_CHANCE_SCALE`] the returned board
    /// is optimal: its minimax value equals the root's propagated value; at
    /// a chance of the full scale or more, every returned board is optimal.
    /// Otherwise the move is drawn uniformly from all legal moves.
    #[verifier::rlimit(100)]
    pub fn get_move(&mut self, brd: Board) -> (r: Option<Board>)
        requires
            brd@.wf(),
        ensures
            final(self).search_depth == old(self).search_depth,
            final(self).team == old(self).team,
            final(self).perfect_chance == old(self).perfect_chance,
            final(self).last_node_count as int == tree_size(
                brd@,
                old(self).search_depth as nat,
            ) - 1,
            (r is None) <==> (old(self).search_depth == 0 || available_moves(brd@).len() == 0),
            r matches Some(b) ==> b@.wf() && exists|k: int|
                0 <= k < available_moves(brd@).len() && b@ == apply_mv(
                    brd@,
                    #[trigger] available_moves(brd@)[k],
                ),
            old(self).perfect_chance >= PERFECT_CHANCE_SCALE ==> (r matches Some(b)
                ==> minimax_value(b@, (old(self).search_depth - 1) as nat) == minimax_value(
                brd@,
                old(self).search_depth as nat,
            )),
    {
        let ghost bv = brd@;
        let ghost depth = self.search_depth as int;

        let mut tree = SearchTree::new();

        // generate a tree to the configured depth for the given board
        let root_node = self.gen_tree(&mut tree, brd);

        self.last_node_count = tree.count() - 1;

        // score the leaves with their boards' material scores
        let lowest_nodes = self.get_leaf_nodes(&tree);
        let ghost leaves_v = lowest_nodes@;
        let ghost t1 = tree;
        self.insert_board_scores(&mut tree, lowest_nodes);
        let ghost l0: Seq<int> = choose|l: Seq<int>| tree_wf(t1, depth, l);
        proof {
            lemma_tree_wf_same_shape(t1, tree, depth, l0);
            assert(tree_wf(tree, self.search_depth as int, l0));
            assert forall|i: int|
                0 <= i < tree.nodes@.len() && (#[trigger] tree.kids@[i]@).len() == 0 implies tree
                .nodes@[i].score as int == tree.nodes@[i].board@.score_v() by {
                assert(t1.kids@[i]@.len() == 0);
                assert(leaves_v.contains(i as usize));
            }
        }

        // propagate the scores up the tree; the root ends with the best score
        let tree = self.propagate_scores(tree, root_node);
        let ghost layer = choose|l: Seq<int>|
            #[trigger] tree_wf(tree, depth, l) && tree_scored(tree, depth, l);
        proof {
            assert(tree.nodes@[0].board@ == bv);
            assert(tree.nodes@[0].score as int == minimax_value(bv, depth as nat));
        }

        let num_children = tree_kids_len(&tree, root_node);

        if num_children == 0 {
            proof {
                if self.search_depth > 0 {
                    assert(layer[0] < depth);
                    assert(expanded_node(tree, layer, 0));
                    assert(available_moves(bv).len() == 0);
                }
            }
            return None;
        }
        proof {
            if self.search_depth == 0 {
                assert(layer[0] == depth);
                assert(tree.kids@[0]@.len() == 0);
            }
            assert(self.search_depth > 0);
            assert(layer[0] < depth);
            assert(expanded_node(tree, layer, 0));
        }

        let root_score = tree_score_at(&tree, root_node);
        let ghost moves = available_moves(bv);
        let ghost d1 = (depth - 1) as nat;

        // random draw against the perfect-move threshold
        let coin = random_below(PERFECT_CHANCE_SCALE as usize);

        if coin < (self.perfect_chance as usize) {
            // collect the children whose score matches the root's best score
            let mut equal_scores: Vec<usize> = Vec::new();
            let mut k: usize = 0;
            while k < num_children
                invariant
                    k <= num_children,
                    root_node == 0,
                    depth == self.search_depth as int,
                    tree_wf(tree, depth, layer),
                    tree_scored(tree, depth, layer),
                    expanded_node(tree, layer, 0),
                    num_children as int == tree.kids@[0]@.len(),
                    root_score == tree.nodes@[0].score,
                    forall|q: int|
                        0 <= q < equal_scores@.len() ==> (#[trigger] equal_scores@[q] as int)
                            < tree.nodes@.len() && tree.nodes@[equal_scores@[q] as int].score
                            == root_score && exists|c: int|
                            0 <= c < tree.kids@[0]@.len() && tree.kids@[0]@[c]
                                == equal_scores@[q],
                    forall|c: int|
                        0 <= c < k && tree.nodes@[#[trigger] tree.kids@[0]@[c] as int].score
                            == root_score ==> equal_scores@.contains(tree.kids@[0]@[c]),
                decreases num_children - k,
            {
                let child = tree_kid_at(&tree, root_node, k);
                let ghost prev = equal_scores@;
                if tree_score_at(&tree, child) == root_score {
                    equal_scores.push(child);
                }
                proof {
                    assert forall|c: int|
                        0 <= c < k + 1 && tree.nodes@[#[trigger] tree.kids@[0]@[c] as int].score
                            == root_score implies equal_scores@.contains(tree.kids@[0]@[c]) by {
                        if c < k as int {
                            let q = choose|q: int|
                                0 <= q < prev.len() && #[trigger] prev[q] == tree.kids@[0]@[c];
                            assert(equal_scores@[q] == tree.kids@[0]@[c]);
                        } else {
                            assert(equal_scores@[equal_scores@.len() - 1] == tree.kids@[0]@[c]);
                        }
                    }
                }
                k += 1;
            }

            if equal_scores.len() == 0 {
                // cannot happen: the root's score is the extremum of its
                // children's scores, and an extremum is attained by one of
                // them; kept as a defensive fallback
                proof {
                    lemma_minimax_children_len(bv, moves, d1);
                    lemma_seq_extrema(minimax_children(bv, moves, d1));
                    let c = choose|c: int|
                        0 <= c < minimax_children(bv, moves, d1).len()
                            && #[trigger] minimax_children(bv, moves, d1)[c] == minimax_value(
                            bv,
                            depth as nat,
                        );
                    lemma_minimax_children_index(bv, moves, d1, c);
                    let j = tree.kids@[0]@[c] as int;
                    assert(tree.nodes@[j].board@ == apply_mv(bv, moves[c]));
                    assert(layer[j] == 1);
                    assert(tree.nodes@[j].score as int == minimax_value(tree.nodes@[j].board@, d1));
                    assert(tree.nodes@[j].score == root_score);
                    assert(equal_scores@.contains(tree.kids@[0]@[c]));
                    assert(false);
                }
                let pick = random_below(num_children);
                let child = tree_kid_at(&tree, root_node, pick);
                Some(tree_board_clone(&tree, child))
            } else if equal_scores.len() == 1 {
                let child = equal_scores[0];
                proof {
                    self.lemma_chosen_child(tree, layer, bv, child, root_score);
                }
                Some(tree_board_clone(&tree, child))
            } else {
                let pick = random_below(equal_scores.len());
                let child = equal_scores[pick];
                proof {
                    self.lemma_chosen_child(tree, layer, bv, child, root_score);
                }
                Some(tree_board_clone(&tree, child))
            }
        } else {
            proof {
                if self.perfect_chance >= PERFECT_CHANCE_SCALE {
                    assert(coin < PERFECT_CHANCE_SCALE as usize);
                    assert(false);
                }
            }
            let pick = random_below(num_children);
            let child = tree_kid_at(&tree, root_node, pick);
            proof {
                let c = pick as int;
                let j = tree.kids@[0]@[c] as int;
                assert(tree.nodes@[j].board@ == apply_mv(bv, moves[c]));
                lemma_available_move_ok(bv, c);
            }
            Some(tree_board_clone(&tree, child))
        }
    }

    /// A root child whose score equals the root's propagated score carries a
    /// board one legal move away whose minimax value at one less depth
    /// equals the root's value.
    proof fn lemma_chosen_child(
        self,
        tree: SearchTree,
        layer: Seq<int>,
        bv: BoardView,
        child: usize,
        root_score: isize,
    )
        requires
            bv.wf(),
            tree_wf(tree, self.search_depth as int, layer),
            tree_scored(tree, self.search_depth as int, layer),
            expanded_node(tree, layer, 0),
            layer[0] == 0,
            tree.nodes@[0].board@ == bv,
            root_score == tree.nodes@[0].score,
            (child as int) < tree.nodes@.len(),
            tree.nodes@[child as int].score == root_score,
            exists|c: int|
                0 <= c < tree.kids@[0]@.len() && #[trigger] tree.kids@[0]@[c] == child,
        ensures
            tree.nodes@[child as int].board@.wf(),
            exists|k: int|
                0 <= k < available_moves(bv).len() && tree.nodes@[child as int].board@
                    == apply_mv(bv, #[trigger] available_moves(bv)[k]),
            minimax_value(tree.nodes@[child as int].board@, (self.search_depth - 1) as nat)
                == minimax_value(bv, self.search_depth as nat),
    {
        let c = choose|c: int| 0 <= c < tree.kids@[0]@.len() && #[trigger] tree.kids@[0]@[c]
            == child;
        let j = child as int;
        assert(tree.nodes@[j].board@ == apply_mv(bv, available_moves(bv)[c]));
        assert(layer[j] == 1);
        lemma_available_move_ok(bv, c);
        assert(tree.nodes@[j].score as int == minimax_value(
            tree.nodes@[j].board@,
            (self.search_depth as int - 1) as nat,
        ));
        assert(tree.nodes@[0].score as int == minimax_value(bv, self.search_depth as nat));
    }
}

/// A copy of the board stored at node `i`.
fn tree_board_clone(t: &SearchTree, i: usize) -> (r: Board)
    requires
        (i as int) < t.nodes@.len(),
    ensures
        r@ == t.nodes@[i as int].board@,
{
    t.nodes[i].board.clone()
}

/// Minimax correctness over a built and scored search tree, node by node:
/// a node without children holds the material score of its board, and a
/// node with children holds the minimum of its children's scores when White
/// is to move on its board, the maximum when Black is.
pub proof fn lemma_minimax_tree_local(t: SearchTree, depth: int, layer: Seq<int>, i: int)
    requires
        tree_wf(t, depth, layer),
        tree_scored(t, depth, layer),
        0 <= i < t.nodes@.len(),
    ensures
        t.kids@[i]@.len() == 0 ==> t.nodes@[i].score as int == t.nodes@[i].board@.score_v(),
        t.kids@[i]@.len() > 0 ==> t.nodes@[i].score as int == ({
            let kid_scores = Seq::new(
                t.kids@[i]@.len(),
                |k: int| t.nodes@[t.kids@[i]@[k] as int].score as int,
            );
            if t.nodes@[i].board@.turn == Team::White {
                seq_min(kid_scores)
            } else {
                seq_max(kid_scores)
            }
        }),
{
    let b = t.nodes@[i].board@;
    let d = (depth - layer[i]) as nat;
    if t.kids@[i]@.len() == 0 {
        if layer[i] < depth {
            assert(expanded_node(t, layer, i));
            assert(available_moves(b).len() == 0);
        }
    } else {
        assert(layer[i] != depth);
        assert(expanded_node(t, layer, i));
        let mvs = available_moves(b);
        let d1 = (depth - layer[i] - 1) as nat;
        let kid_scores = Seq::new(
            t.kids@[i]@.len(),
            |k: int| t.nodes@[t.kids@[i]@[k] as int].score as int,
        );
        assert forall|k: int| 0 <= k < kid_scores.len() implies #[trigger] kid_scores[k]
            == minimax_children(b, mvs, d1)[k] by {
            let j = t.kids@[i]@[k] as int;
            assert(t.nodes@[j].board@ == apply_mv(b, mvs[k]));
            assert(layer[j] == layer[i] + 1);
            lemma_minimax_children_index(b, mvs, d1, k);
        }
        lemma_minimax_children_len(b, mvs, d1);
        assert(kid_scores =~= minimax_children(b, mvs, d1));
    }
}

} // verus!
