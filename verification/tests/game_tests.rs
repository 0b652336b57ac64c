use chess_mcts::board::ChessBoard;
use chess_mcts::clock::Clock;
use chess_mcts::game::game_over;
use chess_mcts::game::is_insufficient_material;

fn clock() -> Clock {
    Clock { increment: 5_000_000_000, white_time_left: 300_000_000_000, black_time_left: 300_000_000_000 }
}

#[test]
fn the_initial_position_is_not_over_and_is_recorded() {
    let board = ChessBoard::start_pos();
    let mut history: Vec<u64> = vec![];
    assert!(!game_over(&board, &mut history, &clock()));
    assert_eq!(history, vec![board.board().zobrist()]);
}

#[test]
fn a_fallen_flag_ends_the_game() {
    let board = ChessBoard::start_pos();
    let mut history: Vec<u64> = vec![];
    let mut c = clock();
    c.black_time_left = 0;
    assert!(game_over(&board, &mut history, &c));
}

#[test]
fn the_third_repetition_ends_the_game() {
    let board = ChessBoard::start_pos();
    let mut history: Vec<u64> = vec![];
    assert!(!game_over(&board, &mut history, &clock()));
    assert!(!game_over(&board, &mut history, &clock()));
    assert!(game_over(&board, &mut history, &clock()));
    assert_eq!(history.len(), 3);
    // A fourth occurrence is not exactly three.
    assert!(!game_over(&board, &mut history, &clock()));
}

#[test]
fn a_position_far_from_a_capture_or_pawn_move_clears_the_record() {
    let mut board = ChessBoard::start_pos();
    // Knight out and back for both sides: the fifty-move counter reaches 2.
    for (from, to) in [("g1", "f3"), ("g8", "f6")] {
        let m = board.generate_moves().into_iter().find(|m| {
            pleco::BitMove::new(*m).stringify() == format!("{}{}", from, to)
        }).unwrap();
        board.apply_move(m);
    }
    assert_eq!(board.board().rule_50(), 2);
    let mut history: Vec<u64> = vec![1, 2, 3];
    assert!(!game_over(&board, &mut history, &clock()));
    assert!(history.is_empty());
}

#[test]
fn insufficient_material_keys() {
    assert!(is_insufficient_material(14531074927864995568));
    assert!(is_insufficient_material(12777358361509687304));
    assert!(is_insufficient_material(15001244464087343965));
    assert!(is_insufficient_material(2182324930161781490));
    assert!(is_insufficient_material(1440794681747902690));
    assert!(!is_insufficient_material(0));
    assert!(!is_insufficient_material(ChessBoard::start_pos().board().material_key()));
}
