use std::sync::Arc;

use core_engine::controllers::SimulationController;
use core_engine::agents::ActionSelector;
use core_engine::evaluators::{
    default_evaluator_weights, extract_feature_counts, PositionEvaluator, StaticDotProductEvaluator, MAX_WEIGHT,
    StaticDotProductEvaluatorWeights,
    TrainableDotProductEvaluator,
};
use core_engine::luts::EngineLUTs;
use core_engine::score::EvaluationScore;
use core_engine::search::SearchContext;
use core_engine::state::{GameState, Player};
use core_engine::tt::TranspositionTable;

fn flattened_default_weights() -> Arc<Vec<i32>> {
    let w = default_evaluator_weights();
    let mut flat = Vec::with_capacity(108);
    for t in 0..3 {
        for s in 0..6 {
            for r in 0..3 {
                for p in 0..2 {
                    flat.push(w.0[t][s][r][p]);
                }
            }
        }
    }
    Arc::new(flat)
}

fn features_as_floats(state: &GameState, luts: &EngineLUTs) -> Vec<f32> {
    extract_feature_counts(state, luts).into_iter().map(|c| c as f32).collect()
}

fn score_to_float(score: EvaluationScore) -> f32 {
    match score {
        EvaluationScore::Value(val) => (val as f32 / 1000.0).clamp(-900.0, 900.0),
        EvaluationScore::Mating(n) => 1000.0 - 10.0 * (n as f32),
        EvaluationScore::Mated(n) => -(1000.0 - 10.0 * (n as f32)),
    }
}

#[test]
fn run_comprehensive_evaluator_diagnostics() {
    let luts = EngineLUTs::get_engine_luts();
    let flat_weights = flattened_default_weights();
    let trainable_evaluator = TrainableDotProductEvaluator::new(flat_weights);

    let state_p1_turn = GameState::new(0x7, 0x80, Player::P1);
    let state_p2_turn = GameState::new(0x80, 0x7, Player::P2);

    let eval_p1 = trainable_evaluator.evaluate(&state_p1_turn);
    let eval_p2 = trainable_evaluator.evaluate(&state_p2_turn);

    let features_p1 = features_as_floats(&state_p1_turn, &luts);
    let features_p2 = features_as_floats(&state_p2_turn, &luts);

    assert_eq!(features_p1.len(), 108, "Features vector length must be 108");
    assert_eq!(features_p2.len(), 108, "Features vector length must be 108");

    let mut manual_dot_p1 = 0.0f32;
    let trainable_weights = trainable_evaluator.weights.as_ref();
    for i in 0..108 {
        manual_dot_p1 += features_p1[i] * (trainable_weights[i] as f32);
    }
    println!("Manual dot product of P1 features: {}", manual_dot_p1);

    assert_eq!(eval_p1, eval_p2, "CRITICAL SYMMETRY FAILURE: Mirrored positions yielded different values!");
    assert_eq!(features_p1, features_p2, "CRITICAL FEATURE BREAK: Features do not match when swapping active players!");
}

/// Picks the target value self-play training would record: the best root candidate's score.
fn training_target(state: &GameState, evaluator: &TrainableDotProductEvaluator, luts: &EngineLUTs) -> Option<f32> {
    let cancelled = std::sync::atomic::AtomicBool::new(false);
    let ctx = SearchContext { evaluator, luts, cancelled: &cancelled };
    let mut tt = TranspositionTable::with_capacity(20);
    let controller = SimulationController::new(&ctx, 4);
    let result = controller.search_candidates(state, &mut tt);
    if result.candidates.is_empty() {
        return None;
    }
    let best_move = ActionSelector::select_best(&result)?;
    let best = result.candidates.iter().find(|c| c.current_move == best_move)?;
    Some(score_to_float(best.score))
}

#[test]
fn test_agent_target_score_sanity() {
    let luts = EngineLUTs::get_engine_luts();
    let evaluator = TrainableDotProductEvaluator::new(flattened_default_weights());

    let winning_state = GameState::new(0x7, 0x80, Player::P1);
    let target_winning = training_target(&winning_state, &evaluator, &luts)
        .expect("Agent failed to return candidates for winning position");

    let losing_state = GameState::new(0x30400, 0x03, Player::P2);
    let target_losing = training_target(&losing_state, &evaluator, &luts)
        .expect("Agent failed to return candidates for losing position");

    assert!(target_winning > 0.0, "Winning positions must yield positive targets!");
    assert!(target_losing < 0.0, "Losing positions must yield negative targets!");
}

#[test]
fn static_and_trainable_evaluators_agree_on_default_weights() {
    let luts = EngineLUTs::get_engine_luts();
    let fixed = StaticDotProductEvaluator::new(default_evaluator_weights());
    let trainable = TrainableDotProductEvaluator::new(flattened_default_weights());
    for (p1, p2, player) in [
        (0x0000_0000_0000_ffffu64, 0xffff_0000_0000_0000u64, Player::P1),
        (0x7u64, 0x80u64, Player::P1),
        (0x30400u64, 0x3u64, Player::P2),
        (0x0000_0018_1800_0000u64, 0x0000_2400_0024_0000u64, Player::P2),
    ] {
        let s = GameState::new(p1, p2, player);
        assert_eq!(fixed.evaluate(&s), trainable.evaluate(&s));
        let counts = extract_feature_counts(&s, &luts);
        let mut dot: i64 = 0;
        let w = flattened_default_weights();
        for i in 0..108 {
            dot += counts[i] as i64 * w[i] as i64;
        }
        match fixed.evaluate(&s) {
            EvaluationScore::Value(v) => assert_eq!(v as i64, dot),
            EvaluationScore::Mated(0) => {
                for i in 0..108 {
                    let sovereignty = (i / 6) % 6;
                    if sovereignty != 2 && sovereignty != 5 {
                        assert_eq!(counts[i], 0);
                    }
                }
            },
            other => panic!("unexpected score {:?}", other),
        }
    }
}

#[test]
fn weights_wrapper_reads_and_writes_the_tensor() {
    let mut w = StaticDotProductEvaluatorWeights([[[[0i32; 2]; 3]; 6]; 3]);
    w[1][2][0][1] = 7;
    assert_eq!(w[1][2][0][1], 7);
    assert_eq!(w.0[1][2][0][1], 7);
    let total: i32 = w.iter().flatten().flatten().flatten().sum();
    assert_eq!(total, 7);
}

#[test]
fn largest_weights_evaluate_without_overflow() {
    let s = GameState::new(0x0000_0000_0000_ffff, 0xffff_0000_0000_0000, Player::P1);
    let high = StaticDotProductEvaluator::new(StaticDotProductEvaluatorWeights([[[[MAX_WEIGHT; 2]; 3]; 6]; 3]));
    assert_eq!(high.evaluate(&s), EvaluationScore::Value(64 * MAX_WEIGHT));
    let low = StaticDotProductEvaluator::new(StaticDotProductEvaluatorWeights([[[[-MAX_WEIGHT; 2]; 3]; 6]; 3]));
    assert_eq!(low.evaluate(&s), EvaluationScore::Value(-64 * MAX_WEIGHT));
}
