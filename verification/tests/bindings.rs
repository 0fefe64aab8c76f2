use core_engine::bindings::{
    evaluation_report, parse_game_state, parse_move_primitive, score_label, wasm_game_state, wasm_move,
    BindingError, DefaultPositionEvaluator, WasmEngine, WasmGameState, WasmMove,
};
use core_engine::controllers::SearchProgress;
use core_engine::evaluators::PositionEvaluator;
use core_engine::moves::Move;
use core_engine::score::{EvaluationScore, ScoredMove};
use core_engine::state::{GameState, Player};

fn raw(p1: u64, p2: u64, player: &str) -> WasmGameState {
    WasmGameState { p1_pieces: p1, p2_pieces: p2, active_player: player.to_string() }
}

#[test]
fn front_end_positions_name_their_side() {
    assert_eq!(parse_game_state(&raw(3, 4, "P1")), Ok(GameState::new(3, 4, Player::P1)));
    assert_eq!(parse_game_state(&raw(3, 4, "P2")), Ok(GameState::new(3, 4, Player::P2)));
    assert_eq!(parse_game_state(&raw(3, 4, "p1")), Err(BindingError::InvalidPlayer));
    assert_eq!(parse_game_state(&raw(3, 4, "")), Err(BindingError::InvalidPlayer));
    assert_eq!(BindingError::InvalidPlayer.text(), "Invalid player configuration identifier");
    let back = wasm_game_state(&GameState::new(9, 10, Player::P2));
    assert_eq!((back.p1_pieces, back.p2_pieces, back.active_player.as_str()), (9, 10, "P2"));
}

#[test]
fn front_end_moves_round_trip() {
    let m = parse_move_primitive(&WasmMove { from_square: 0, to_square: 18, is_capture: true });
    assert_eq!(m, Move::new(0, 18, 1));
    assert_eq!(wasm_move(m), WasmMove { from_square: 0, to_square: 18, is_capture: true });
    let q = parse_move_primitive(&WasmMove { from_square: 5, to_square: 6, is_capture: false });
    assert!(!q.is_capture());
}

#[test]
fn front_end_legal_moves_follow_generation_order() {
    let state = GameState::new(0b11, 0, Player::P1);
    let listed = WasmEngine::generate_legal_moves(&raw(0b11, 0, "P1")).unwrap();
    let expected: Vec<WasmMove> = state.generate_legal_moves().as_slice().iter().map(|m| wasm_move(*m)).collect();
    assert_eq!(listed, expected);
    assert_eq!(listed[0], WasmMove { from_square: 0, to_square: 2, is_capture: false });
    assert!(WasmEngine::generate_legal_moves(&raw(0b11, 0, "white")).is_err());
}

#[test]
fn front_end_move_plays_and_passes_the_turn() {
    let next = WasmEngine::make_move(
        &raw((1 << 0) | (1 << 9), 1 << 18, "P1"),
        &WasmMove { from_square: 0, to_square: 18, is_capture: true },
    )
    .unwrap();
    assert_eq!(next.p1_pieces, (1 << 9) | (1 << 18));
    assert_eq!(next.p2_pieces, 0);
    assert_eq!(next.active_player, "P2");
    assert!(WasmEngine::make_move(&raw(1, 2, "P3"), &WasmMove { from_square: 0, to_square: 1, is_capture: false })
        .is_err());
}

#[test]
fn score_labels_match_the_debug_form() {
    for score in [
        EvaluationScore::Value(0),
        EvaluationScore::Value(7),
        EvaluationScore::Value(-12),
        EvaluationScore::Value(1234567),
        EvaluationScore::Value(i32::MIN),
        EvaluationScore::Value(i32::MAX),
        EvaluationScore::Mating(3),
        EvaluationScore::Mated(0),
        EvaluationScore::Mated(u32::MAX),
        EvaluationScore::Mating(10),
    ] {
        assert_eq!(score_label(score), format!("{:?}", score));
    }
    assert_eq!(score_label(EvaluationScore::Value(-12)), "Value(-12)");
}

#[test]
fn evaluation_report_lists_candidates_in_order() {
    let progress = SearchProgress {
        candidates: vec![
            ScoredMove { current_move: Move::new(1, 2, 0), score: EvaluationScore::Value(-40) },
            ScoredMove { current_move: Move::new(3, 4, 1), score: EvaluationScore::Mating(2) },
            ScoredMove { current_move: Move::new(5, 6, 0), score: EvaluationScore::Mated(1) },
        ],
        depth_reached: 4,
        nodes_explored: 321,
        pv: Vec::new(),
    };
    let report = evaluation_report(&progress);
    assert_eq!(report.depth_reached, 4);
    assert_eq!(report.nodes_explored, 321);
    assert_eq!(report.candidates.len(), 3);
    assert_eq!(report.candidates[0].current_move, WasmMove { from_square: 1, to_square: 2, is_capture: false });
    assert_eq!(report.candidates[0].score_value, -40);
    assert_eq!(report.candidates[0].score_label, "Value(-40)");
    assert_eq!(report.candidates[1].score_value, i32::MAX - 2);
    assert!(report.candidates[1].current_move.is_capture);
    assert_eq!(report.candidates[2].score_value, i32::MIN + 1);
    assert_eq!(report.candidates[2].score_label, "Mated(1)");
}

#[test]
fn material_evaluator_counts_pieces() {
    let e = DefaultPositionEvaluator::new();
    assert_eq!(e.evaluate(&GameState::new(0b111, 0b1000, Player::P1)), EvaluationScore::Value(200));
    assert_eq!(e.evaluate(&GameState::new(0b111, 0b1000, Player::P2)), EvaluationScore::Value(-200));
    assert_eq!(e.evaluate(&GameState::new(u64::MAX, 0, Player::P1)), EvaluationScore::Value(6400));
}

#[test]
fn evaluation_report_carries_the_principal_line() {
    let progress = SearchProgress {
        candidates: vec![ScoredMove { current_move: Move::new(1, 2, 0), score: EvaluationScore::Value(3) }],
        depth_reached: 2,
        nodes_explored: 9,
        pv: vec![Move::new(1, 2, 0), Move::new(50, 42, 1)],
    };
    let report = evaluation_report(&progress);
    assert_eq!(
        report.pv,
        vec![
            WasmMove { from_square: 1, to_square: 2, is_capture: false },
            WasmMove { from_square: 50, to_square: 42, is_capture: true },
        ]
    );
    let empty = SearchProgress { candidates: Vec::new(), depth_reached: 0, nodes_explored: 0, pv: Vec::new() };
    assert!(evaluation_report(&empty).pv.is_empty());
}
