//! Tests for the automated player: move enumeration, tree expansion, leaf
//! scoring, minimax propagation, and move selection.

use draught::Board;
use draught::BrdIdx;
use draught::comp::SearchTree;
use draught::Computer;
use draught::Move;
use draught::MoveType;
use draught::Square;
use draught::Strength;
use draught::Team;

#[test]
fn available_moves() {
    // . W .
    // _ . _
    let mut brd = Board::new(3, 2, Team::White);
    let comp = Computer::new(3, Team::White, 500_000);

    // can move left and right from the central square
    brd.set_cell(brd.cell_index(0, 1), Square::pc(Team::White, Strength::Man));

    let moves = comp.available_turns(&brd);

    assert_eq!(moves.len(), 2);
    assert!(moves.into_iter().all(|m| m.mv_type == MoveType::Move));
}

#[test]
fn available_moves_jumps() {
    // . W . _
    // _ . B .
    // . _ . _
    // _ . _ .
    let mut brd = Board::new(4, 4, Team::White);
    let comp = Computer::new(3, Team::White, 500_000);

    brd.set_cell(brd.cell_index(0, 1), Square::pc(Team::White, Strength::Man));
    brd.set_cell(brd.cell_index(1, 2), Square::pc(Team::Black, Strength::Man));

    let moves = comp.available_turns(&brd);

    assert_eq!(moves.len(), 2);
    assert!(moves[0].mv_type == MoveType::Move);
    assert!(moves[1].mv_type == MoveType::Jump);
}

#[test]
fn available_moves_std_brd() {
    let brd = Board::init_game(Board::new(8, 8, Team::White), 3);
    let comp = Computer::new(3, Team::White, 500_000);

    let moves = comp.available_turns(&brd);

    // two diagonal moves per piece on the third row, except the last piece
    assert_eq!(moves.len(), 7);
    assert!(moves.into_iter().all(|m| m.mv_type == MoveType::Move));
}

#[test]
fn available_moves_empty_board() {
    // no pieces for the side to move: no legal moves at all
    let brd = Board::new(4, 4, Team::White);
    let comp = Computer::new(3, Team::White, 500_000);
    assert_eq!(comp.available_turns(&brd), Vec::<Move>::new());
}

#[test]
fn expand_node() {
    let brd = Board::init_game(Board::new(8, 8, Team::White), 3);
    let comp = Computer::new(3, Team::White, 500_000);

    let mut tree = SearchTree::new();
    tree.nodes.push(draught::BoardNode::brd(brd));
    tree.kids.push(Vec::new());

    let ids = comp.expand_node(&mut tree, 0);

    assert_eq!(ids.len(), 7);
    assert_eq!(tree.count(), 8);
    assert_eq!(tree.kids[0].len(), 7);
    assert_eq!(tree.kids[0], ids);
}

#[test]
fn expand_two_layers() {
    let brd = Board::init_game(Board::new(8, 8, Team::White), 3);
    let comp = Computer::new(3, Team::White, 500_000);

    let mut tree = SearchTree::new();
    tree.nodes.push(draught::BoardNode::brd(brd));
    tree.kids.push(Vec::new());

    let first = comp.expand_node(&mut tree, 0);
    assert_eq!(first.len(), 7);

    // each of Black's replies: after any White opening, Black has 7 moves
    let mut second = 0;
    for id in first {
        second += comp.expand_node(&mut tree, id).len();
    }
    assert_eq!(second, 49);
    assert_eq!(tree.count(), 49 + 7 + 1);
}

#[test]
fn gen_tree_counts_layers() {
    let brd = Board::init_game(Board::new(8, 8, Team::White), 3);
    let comp = Computer::new(2, Team::White, 500_000);

    let mut tree = SearchTree::new();
    let root = comp.gen_tree(&mut tree, brd);

    assert_eq!(root, 0);
    assert_eq!(tree.count(), 1 + 7 + 49);
}

#[test]
fn leaf_nodes() {
    let brd = Board::init_game(Board::new(8, 8, Team::White), 3);
    let comp = Computer::new(3, Team::White, 500_000);

    let mut tree = SearchTree::new();
    tree.nodes.push(draught::BoardNode::brd(brd));
    tree.kids.push(Vec::new());

    let ids = comp.expand_node(&mut tree, 0);
    let more = comp.expand_node(&mut tree, ids[0]);

    // every node but the root and the one expanded child is a leaf
    assert_eq!(comp.get_leaf_nodes(&tree).len(), ids.len() + more.len() - 1);
}

#[test]
fn best_scores() {
    let brd = Board::new(1, 1, Team::White);
    assert_eq!(Computer::best_score(&brd, vec![-5, -1, 2, 3, 4]), -5);

    let brd = Board::new(1, 1, Team::Black);
    assert_eq!(Computer::best_score(&brd, vec![-1, 2, 3, 4]), 4);
}

#[test]
fn insert_scores_all_take() {
    // . _ . _ .
    // W . W . W
    // . B . B .
    // _ . _ . _
    //
    // four available moves, all of them White taking Black
    let mut brd = Board::new(5, 4, Team::White);
    brd.set_cell(brd.cell_idx(BrdIdx::from(1, 2)), Square::pc(Team::White, Strength::Man));
    brd.set_cell(brd.cell_idx(BrdIdx::from(1, 0)), Square::pc(Team::White, Strength::Man));
    brd.set_cell(brd.cell_idx(BrdIdx::from(1, 4)), Square::pc(Team::White, Strength::Man));
    brd.set_cell(brd.cell_idx(BrdIdx::from(2, 1)), Square::pc(Team::Black, Strength::Man));
    brd.set_cell(brd.cell_idx(BrdIdx::from(2, 3)), Square::pc(Team::Black, Strength::Man));
    let comp = Computer::new(1, Team::White, 500_000);

    let mut tree = SearchTree::new();
    let root = comp.gen_tree(&mut tree, brd);

    let lowest_nodes = comp.get_leaf_nodes(&tree);
    comp.insert_board_scores(&mut tree, lowest_nodes);

    let children_scores: Vec<isize> =
        tree.kids[root].iter().map(|n| tree.nodes[*n].score).collect();

    assert_eq!(children_scores, vec![-2, -2, -2, -2]);
}

#[test]
fn insert_scores_one_take() {
    // . _ . _ .
    // W . _ . W
    // . B . _ .
    // _ . _ . _
    let mut brd = Board::new(5, 4, Team::White);
    brd.set_cell(brd.cell_idx(BrdIdx::from(1, 0)), Square::pc(Team::White, Strength::Man));
    brd.set_cell(brd.cell_idx(BrdIdx::from(1, 4)), Square::pc(Team::White, Strength::Man));
    brd.set_cell(brd.cell_idx(BrdIdx::from(2, 1)), Square::pc(Team::Black, Strength::Man));
    let comp = Computer::new(1, Team::White, 500_000);

    let mut tree = SearchTree::new();
    let root = comp.gen_tree(&mut tree, brd);

    let lowest_nodes = comp.get_leaf_nodes(&tree);
    comp.insert_board_scores(&mut tree, lowest_nodes);

    let children_scores: Vec<isize> =
        tree.kids[root].iter().map(|n| tree.nodes[*n].score).collect();

    assert_eq!(children_scores, vec![-2, -1]);
}

#[test]
fn propagate_scores_minimises_for_white() {
    // the root, with White to move, takes the minimum of its children
    let mut brd = Board::new(5, 4, Team::White);
    brd.set_cell(brd.cell_idx(BrdIdx::from(1, 0)), Square::pc(Team::White, Strength::Man));
    brd.set_cell(brd.cell_idx(BrdIdx::from(1, 4)), Square::pc(Team::White, Strength::Man));
    brd.set_cell(brd.cell_idx(BrdIdx::from(2, 1)), Square::pc(Team::Black, Strength::Man));
    let comp = Computer::new(1, Team::White, 500_000);

    let mut tree = SearchTree::new();
    let root = comp.gen_tree(&mut tree, brd);
    let lowest_nodes = comp.get_leaf_nodes(&tree);
    comp.insert_board_scores(&mut tree, lowest_nodes);
    let tree = comp.propagate_scores(tree, root);

    // children score -2 (jump) and -1 (step); White picks the minimum
    assert_eq!(tree.nodes[root].score, -2);
}

#[test]
fn get_move_none_without_pieces() {
    // a side with no pieces yields no move
    let brd = Board::new(4, 4, Team::White);
    let mut comp = Computer::new(3, Team::White, 500_000);
    assert!(comp.get_move(brd).is_none());
}

#[test]
fn get_move_none_at_depth_zero() {
    let brd = Board::init_game(Board::new(8, 8, Team::White), 3);
    let mut comp = Computer::new(0, Team::White, 500_000);
    assert!(comp.get_move(brd).is_none());
}

#[test]
fn get_move_counts_nodes() {
    let brd = Board::init_game(Board::new(8, 8, Team::White), 3);
    let mut comp = Computer::new(2, Team::White, 500_000);
    let next = comp.get_move(brd);
    assert!(next.is_some());
    assert_eq!(comp.last_node_count, 7 + 49);
}

#[test]
fn perfect_chance_full_always_plays_the_best_move() {
    // White to move can either step (keeping the piece count level) or jump
    // a black man; the jump is strictly better for White
    for _ in 0..50 {
        let mut brd = Board::new(4, 4, Team::White);
        brd.set_cell(brd.cell_index(0, 1), Square::pc(Team::White, Strength::Man));
        brd.set_cell(brd.cell_index(1, 2), Square::pc(Team::Black, Strength::Man));

        let mut comp = Computer::new(1, Team::White, 1_000_000);
        let next = comp.get_move(brd).unwrap();
        assert_eq!(next.score(), -1);
    }
}

#[test]
fn perfect_chance_zero_plays_uniformly() {
    // with a chance of zero the move is drawn uniformly from both legal
    // moves; over many trials each must appear (statistical, not exact)
    let mut seen_step = false;
    let mut seen_jump = false;
    for _ in 0..200 {
        let mut brd = Board::new(4, 4, Team::White);
        brd.set_cell(brd.cell_index(0, 1), Square::pc(Team::White, Strength::Man));
        brd.set_cell(brd.cell_index(1, 2), Square::pc(Team::Black, Strength::Man));

        let mut comp = Computer::new(1, Team::White, 0);
        let next = comp.get_move(brd).unwrap();
        match next.score() {
            0 => {
                seen_step = true;
            },
            -1 => {
                seen_jump = true;
            },
            other => panic!("unexpected resulting score {}", other),
        }
    }
    assert!(seen_step);
    assert!(seen_jump);
}

#[test]
fn get_move_result_is_one_move_away() {
    let brd = Board::init_game(Board::new(8, 8, Team::White), 3);
    let comp_enum = Computer::new(1, Team::White, 0);
    let moves = comp_enum.available_turns(&brd);

    let mut comp = Computer::new(1, Team::White, 0);
    let next = comp.get_move(brd.clone()).unwrap();

    // the returned board is the application of one of the legal moves
    let mut matched = false;
    for m in moves {
        let candidate = match m.mv_type {
            MoveType::Move => brd.apply_move(m.from, m.to),
            MoveType::Jump => brd.apply_jump(m.from, m.to),
        };
        let mut same = candidate.num_cells() == next.num_cells();
        if same {
            for i in 0..candidate.num_cells() {
                if candidate.cell(i) != next.cell(i) {
                    same = false;
                }
            }
        }
        if same {
            matched = true;
        }
    }
    assert!(matched);
}
