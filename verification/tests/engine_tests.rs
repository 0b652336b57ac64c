use chess_mcts::board::ChessBoard;
use chess_mcts::board::Side;
use chess_mcts::enginemove::NodeType;
use chess_mcts::enginemove::PositionId;
use chess_mcts::enginemove::StateInformation;
use chess_mcts::enginemove::Tree;

fn rooted_tree() -> Tree {
    let mut tree = Tree::new();
    tree.add_root(ChessBoard::start_pos(), 0);
    tree
}

#[test]
fn the_initial_position_has_twenty_moves() {
    let board = ChessBoard::start_pos();
    assert_eq!(board.generate_moves().len(), 20);
}

#[test]
fn add_root_makes_an_unexpanded_root() {
    let tree = rooted_tree();
    assert_eq!(tree.len(), 1);
    let root = tree.node(0);
    assert!(root.node_type == NodeType::Root);
    assert!(root.parent.is_none());
    assert!(root.child_first.is_none());
    assert_eq!(root.simulations, 0);
    assert_eq!(root.visits, 0);
    assert!(root.route.is_none());
    assert_eq!(root.id, PositionId { branch: 0, index: 0 });
}

#[test]
fn expand_adds_one_leaf_per_legal_move() {
    let mut tree = rooted_tree();
    tree.expand(0, 0);
    assert_eq!(tree.len(), 21);
    let root = tree.node(0);
    assert!(root.node_type == NodeType::Root);
    assert_eq!(root.child_first, Some(PositionId { branch: 0, index: 1 }));
    assert_eq!(root.child_last, Some(PositionId { branch: 0, index: 21 }));
    let moves = ChessBoard::start_pos().generate_moves();
    for c in 0..20 {
        let child = tree.node(1 + c);
        assert!(child.node_type == NodeType::Leaf);
        assert_eq!(child.parent, Some(PositionId { branch: 0, index: 0 }));
        assert_eq!(child.id, PositionId { branch: 0, index: 1 + 2 * c });
        assert_eq!(child.route, Some(moves[c]));
        assert_eq!(child.position.board().moves_played(), 1);
        assert!(tree.is_leaf(1 + c));
    }
}

#[test]
fn expanding_a_leaf_makes_it_a_twig() {
    let mut tree = rooted_tree();
    tree.expand(0, 0);
    tree.expand(1, 0);
    assert!(tree.node(1).node_type == NodeType::Twig);
    assert!(!tree.is_leaf(1));
    assert_eq!(tree.len(), 41);
    assert_eq!(tree.node(21).parent, Some(PositionId { branch: 0, index: 1 }));
    assert_eq!(tree.node(21).position.board().moves_played(), 2);
}

#[test]
fn backpropagate_updates_exactly_the_path_to_the_root() {
    let mut tree = rooted_tree();
    tree.expand(0, 0);
    tree.expand(3, 0);
    let leaf = 25;
    assert!(tree.can_backpropagate(1, leaf));
    tree.backpropagate(1, leaf);
    tree.backpropagate(-1, leaf);
    tree.backpropagate(1, leaf);
    for i in [0usize, 3, leaf] {
        assert_eq!(tree.node(i).simulations, 3);
        assert_eq!(tree.node(i).wins, 1);
    }
    for i in [1usize, 2, 4, 20, 21, 24, 26] {
        assert_eq!(tree.node(i).simulations, 0);
        assert_eq!(tree.node(i).wins, 0);
    }
}

#[test]
fn visit_counts_one_visit() {
    let mut tree = rooted_tree();
    tree.expand(0, 0);
    tree.visit(4);
    tree.visit(4);
    assert_eq!(tree.node(4).visits, 2);
    assert_eq!(tree.node(0).visits, 0);
    assert_eq!(tree.node(4).simulations, 0);
}

#[test]
fn most_simulated_child_takes_the_first_maximum() {
    let mut tree = rooted_tree();
    tree.expand(0, 0);
    assert_eq!(tree.most_simulated_child(0), 0);
    tree.backpropagate(0, 5);
    tree.backpropagate(0, 9);
    tree.backpropagate(0, 9);
    tree.backpropagate(0, 3);
    tree.backpropagate(0, 3);
    assert_eq!(tree.most_simulated_child(0), 3);
}

#[test]
fn simulate_scores_a_playout_as_win_draw_or_loss() {
    let mut tree = rooted_tree();
    tree.expand(0, 0);
    for child in 1..21 {
        let r = tree.simulate(child, Side::White);
        assert!(-1 <= r && r <= 1);
    }
}

#[test]
fn playout_moves_fall_back_on_quiet_moves() {
    let mut state = StateInformation {
        board: ChessBoard::start_pos(),
        playing: true,
        total_iterations: 0,
        quiets_in_row: 2,
    };
    let moves = state.playout_moves();
    assert_eq!(moves.len(), 20);
    assert_eq!(state.quiets_in_row, 3);
}

#[test]
fn sim_result_goes_on_before_the_search_limit() {
    let state = StateInformation {
        board: ChessBoard::start_pos(),
        playing: true,
        total_iterations: 16,
        quiets_in_row: 3,
    };
    assert_eq!(state.difference(Side::White), 0);
    assert_eq!(state.sim_result(Side::White, 0), None);
}

#[test]
fn sim_result_at_the_search_limit_compares_material() {
    let state = StateInformation {
        board: ChessBoard::start_pos(),
        playing: true,
        total_iterations: 16,
        quiets_in_row: 4,
    };
    assert_eq!(state.sim_result(Side::White, 0), Some(0));
    assert_eq!(state.sim_result(Side::White, -300), Some(1));
    assert_eq!(state.sim_result(Side::White, 300), Some(-1));
    // Zero-sum: the same playout scored for the other side.
    assert_eq!(state.sim_result(Side::Black, 300), Some(-1));
    assert_eq!(state.sim_result(Side::Black, -300), Some(1));
}

#[test]
fn sim_result_scores_a_mate_by_the_side_to_move() {
    // Fool's mate: white is mated.
    let mut board = ChessBoard::start_pos();
    for name in ["f2f3", "e7e5", "g2g4", "d8h4"] {
        let m = board.generate_moves().into_iter().find(|m| pleco::BitMove::new(*m).stringify() == name).unwrap();
        board.apply_move(m);
    }
    assert!(board.board().checkmate());
    let state = StateInformation { board, playing: true, total_iterations: 4, quiets_in_row: 0 };
    assert_eq!(state.sim_result(Side::White, 0), Some(-1));
    assert_eq!(state.sim_result(Side::Black, 0), Some(1));
}

#[test]
fn try_apply_move_plays_only_legal_moves() {
    let mut board = ChessBoard::start_pos();
    let before = board.board().zobrist();
    // A rook cannot move in the initial position.
    let blocked = board.generate_moves().into_iter().fold(0u16, |acc, m| acc.max(m)).wrapping_add(1);
    assert!(!board.try_apply_move(blocked));
    assert_eq!(board.board().zobrist(), before);
    let first = board.generate_moves()[0];
    assert!(board.try_apply_move(first));
    assert_ne!(board.board().zobrist(), before);
    assert_eq!(board.board().moves_played(), 1);
}

#[test]
fn try_expand_expands_when_there_is_room() {
    let mut tree = rooted_tree();
    assert!(tree.try_expand(0, 7));
    assert_eq!(tree.len(), 21);
    assert_eq!(tree.node(0).child_first, Some(PositionId { branch: 7, index: 1 }));
    assert_eq!(tree.node(20).parent, Some(PositionId { branch: 7, index: 0 }));
}

#[test]
fn play_move_counts_the_ply_and_scores_it() {
    let mut state = StateInformation {
        board: ChessBoard::start_pos(),
        playing: true,
        total_iterations: 15,
        quiets_in_row: 4,
    };
    let mv = state.board.generate_moves()[0];
    let r = state.play_move(mv, Side::White, 0);
    assert_eq!(state.total_iterations, 16);
    assert_eq!(state.board.board().moves_played(), 1);
    assert_eq!(r, Some(0));
}

#[test]
fn expand_and_simulate_records_one_playout_per_child() {
    let mut tree = rooted_tree();
    assert!(tree.expand_and_simulate(0, 0, Side::White));
    assert_eq!(tree.len(), 21);
    assert_eq!(tree.node(0).simulations, 20);
    assert!(tree.node(0).wins.abs() <= 20);
    let mut total: i64 = 0;
    for c in 1..21 {
        assert_eq!(tree.node(c).simulations, 1);
        assert!(tree.node(c).wins.abs() <= 1);
        total += tree.node(c).wins;
    }
    // The root gains exactly the sum of its new children's scores.
    assert_eq!(total, tree.node(0).wins);
    // A second round below a child adds its children's playouts on the path.
    assert!(tree.expand_and_simulate(4, 0, Side::White));
    assert_eq!(tree.node(4).simulations, 21);
    assert_eq!(tree.node(0).simulations, 40);
    assert_eq!(tree.node(5).simulations, 1);
}

fn play(names: &[&str]) -> ChessBoard {
    let mut board = ChessBoard::start_pos();
    for name in names {
        let m = board
            .generate_moves()
            .into_iter()
            .find(|m| pleco::BitMove::new(*m).stringify() == *name)
            .unwrap();
        board.apply_move(m);
    }
    board
}

#[test]
fn playout_moves_in_check_are_the_evasions() {
    // 1. e4 f5 2. Qh5+: black must answer the check.
    let board = play(&["e2e4", "f7f5", "d1h5"]);
    assert!(board.board().in_check());
    let evasions: Vec<u16> = board.board().generate_moves().iter().map(|m| m.get_raw()).collect();
    let mut state = StateInformation { board, playing: true, total_iterations: 3, quiets_in_row: 2 };
    let moves = state.playout_moves();
    assert_eq!(moves, evasions);
    assert_eq!(state.quiets_in_row, 2);
}

#[test]
fn playout_moves_prefer_captures_that_do_not_lose_material() {
    // 1. e4 d5: white can take the pawn on d5.
    let board = play(&["e2e4", "d7d5"]);
    let mut state = StateInformation { board, playing: true, total_iterations: 2, quiets_in_row: 2 };
    let moves = state.playout_moves();
    assert_eq!(moves.len(), 1);
    assert_eq!(pleco::BitMove::new(moves[0]).stringify(), "e4d5");
    assert_eq!(state.quiets_in_row, 0);
}

#[test]
fn difference_counts_pieces_other_than_pawns() {
    // 1. Nc3 d5 2. Nxd5 Qxd5: white has lost a knight for a pawn.
    let board = play(&["b1c3", "d7d5", "c3d5", "d8d5"]);
    let state = StateInformation { board, playing: true, total_iterations: 4, quiets_in_row: 0 };
    let white = state.difference(Side::White);
    assert!(white < 0);
    assert_eq!(state.difference(Side::Black), -white);
}

#[test]
fn a_move_counts_one_half_move_and_passes_the_turn() {
    let mut board = ChessBoard::start_pos();
    assert_eq!(board.turn(), Side::White);
    assert_eq!(board.moves_played(), 0);
    let m = board.generate_moves()[3];
    board.apply_move(m);
    assert_eq!(board.turn(), Side::Black);
    assert_eq!(board.moves_played(), 1);
    assert_eq!(board.board().moves_played(), 1);
}

#[test]
fn no_move_is_played_past_the_half_move_limit() {
    let mut board = ChessBoard::start_pos();
    let names = ["g1f3", "g8f6", "f3g1", "f6g8"];
    let mut i = 0;
    while board.moves_played() < i16::MAX as u16 {
        let m = board
            .generate_moves()
            .into_iter()
            .find(|m| pleco::BitMove::new(*m).stringify() == names[i % 4])
            .unwrap();
        board.apply_move(m);
        i += 1;
    }
    assert_eq!(board.moves_played(), i16::MAX as u16);
    let legal = board.generate_moves()[0];
    assert!(!board.try_apply_move(legal));
    assert_eq!(board.moves_played(), i16::MAX as u16);
    // `pleco` keeps every earlier state in a chain that is dropped
    // recursively; one this long would exhaust the test thread's stack.
    std::mem::forget(board);
}

#[test]
fn best_move_is_the_move_to_the_most_simulated_child() {
    let mut tree = rooted_tree();
    tree.expand(0, 0);
    assert_eq!(tree.best_move(0), None);
    tree.backpropagate(1, 7);
    tree.backpropagate(-1, 7);
    tree.backpropagate(1, 12);
    let moves = ChessBoard::start_pos().generate_moves();
    assert_eq!(tree.best_move(0), Some(moves[6]));
    assert_eq!(tree.best_move(0), tree.node(7).route);
}

#[test]
fn playout_scores_within_one_and_matches_simulate_range() {
    let mut tree = rooted_tree();
    tree.expand(0, 0);
    let (r, _plies) = tree.playout(3, Side::Black);
    assert!(-1 <= r && r <= 1);
}
