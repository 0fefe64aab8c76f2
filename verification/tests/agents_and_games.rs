use std::sync::Arc;

use core_engine::agents::{tempered_losses, ActionSelector, BasePickerSearch, GameClock, NegamaxAgent};
use core_engine::bitboard::Bitboard;
use core_engine::controllers::SearchProgress;
use core_engine::evaluators::{default_evaluator_weights, PositionEvaluator, StaticDotProductEvaluator};
use core_engine::luts::EngineLUTs;
use core_engine::moves::Move;
use core_engine::score::{invert_score, EvaluationScore, ScoredMove};
use core_engine::simulation::{SimulationEnvironment, TurnDecision};
use core_engine::state::{GameState, Player};
use core_engine::weights_file::{parse_npy_weight_words, NpyError};

fn candidate(from: u8, score: EvaluationScore) -> ScoredMove {
    ScoredMove { current_move: Move::new(from, from + 1, 0), score }
}

fn progress(candidates: Vec<ScoredMove>) -> SearchProgress {
    SearchProgress { candidates, depth_reached: 1, nodes_explored: 0, pv: Vec::new() }
}

#[test]
fn the_best_candidate_is_the_last_of_the_best() {
    assert_eq!(ActionSelector::select_best(&progress(vec![])), None);
    let p = progress(vec![
        candidate(1, EvaluationScore::Value(5)),
        candidate(2, EvaluationScore::Value(9)),
        candidate(3, EvaluationScore::Value(9)),
        candidate(4, EvaluationScore::Value(-3)),
    ]);
    assert_eq!(ActionSelector::select_best(&p), Some(Move::new(3, 4, 0)));
    let q = progress(vec![
        candidate(1, EvaluationScore::Mating(2)),
        candidate(2, EvaluationScore::Value(1000)),
        candidate(3, EvaluationScore::Mated(0)),
    ]);
    assert_eq!(ActionSelector::select_best(&q), Some(Move::new(1, 2, 0)));
}

#[test]
fn the_one_ply_picker_scores_children() {
    let luts = EngineLUTs::get_engine_luts();
    let evaluator = Arc::new(StaticDotProductEvaluator::new(default_evaluator_weights()));
    let picker = BasePickerSearch::new(&luts, evaluator.clone());
    let s = GameState::new(0x30400, 0x3, Player::P2);
    let p = picker.search_position(&s);
    let legal = s.generate_legal_moves();
    assert_eq!(p.candidates.len(), legal.len());
    assert_eq!(p.depth_reached, 1);
    assert_eq!(p.nodes_explored, legal.len());
    for (i, c) in p.candidates.iter().enumerate() {
        assert_eq!(c.current_move, legal.get(i));
        let mut t = s;
        t.make_move(c.current_move);
        assert_eq!(c.score, invert_score(evaluator.evaluate(&t)));
    }
    assert!(picker.select_move(&p).is_ok());
    assert_eq!(
        picker.select_move(&progress(vec![])),
        Err("BasePickerSearch failed to isolate a valid move selection.".to_string())
    );
}

#[test]
fn time_budget_is_a_twentieth_plus_increment() {
    let luts = EngineLUTs::get_engine_luts();
    let agent = NegamaxAgent::new(&luts, Arc::new(StaticDotProductEvaluator::new(default_evaluator_weights())), 6);
    let clock = GameClock { active_player_time: 60_000_000_000, opponent_time: 1, increment: 1_000_000_000 };
    assert_eq!(agent.calculate_time_budget(clock), 4_000_000_000);
    let odd = GameClock { active_player_time: 39, opponent_time: 0, increment: 0 };
    assert_eq!(agent.calculate_time_budget(odd), 1);
    assert_eq!(agent.max_depth, 6);
}

#[test]
fn self_play_turns_stop_on_loss_limit_and_repetition() {
    let luts = EngineLUTs::get_engine_luts();
    let env = SimulationEnvironment::new(&luts, 3);
    // A side without moves has lost.
    let mut lost = env.start_game(GameState::new(1, 1 << 63, Player::P1));
    assert_eq!(env.begin_turn(&mut lost), TurnDecision::Over);
    assert!(env.append_terminal_conditions(&lost));
    // Turns are recorded and played until the limit.
    let mut game = env.start_game(GameState::new(0b11, 0b11 << 62, Player::P1));
    assert_eq!(env.begin_turn(&mut game), TurnDecision::Play);
    assert_eq!(game.p1_history[0], Bitboard::new(0b11));
    env.play(&mut game, Move::new(0, 9, 0));
    assert_eq!(game.move_counter, 1);
    assert_eq!(env.begin_turn(&mut game), TurnDecision::Play);
    assert_eq!(game.p2_history[0], Bitboard::new(0b11 << 62));
    env.play(&mut game, Move::new(63, 54, 0));
    env.play(&mut game, Move::new(9, 0, 0));
    assert_eq!(env.begin_turn(&mut game), TurnDecision::Over);
    assert!(!env.append_terminal_conditions(&game));
    // Coming back to a recorded arrangement stops the game as a stand-off.
    let mut rep = env.start_game(GameState::new(0b11, 0b11 << 62, Player::P1));
    rep.p1_history[2] = Bitboard::new(0b11);
    assert_eq!(env.begin_turn(&mut rep), TurnDecision::Drawn);
    assert!(rep.game_is_drawn);
    assert!(!env.append_terminal_conditions(&rep));
}

fn npy_file(header: &[u8], words: &[u32]) -> Vec<u8> {
    let mut b = vec![0x93, b'N', b'U', b'M', b'P', b'Y', 1, 0];
    b.push((header.len() & 0xFF) as u8);
    b.push((header.len() >> 8) as u8);
    b.extend_from_slice(header);
    for w in words {
        b.extend_from_slice(&w.to_le_bytes());
    }
    b
}

#[test]
fn weight_files_are_framed_and_read() {
    let words: Vec<u32> = (0..108u32).map(|i| (0.001f32 * i as f32).to_bits()).collect();
    let file = npy_file(b"{'descr': '<f4'}", &words);
    assert_eq!(parse_npy_weight_words(&file), Ok(words.clone()));
    assert_eq!(parse_npy_weight_words(&file[..5]), Err(NpyError::TooSmall));
    let mut bad = file.clone();
    bad[1] = b'X';
    assert_eq!(parse_npy_weight_words(&bad), Err(NpyError::BadMagic));
    assert_eq!(parse_npy_weight_words(&file[..file.len() - 1]), Err(NpyError::Truncated));
    assert_eq!(NpyError::Truncated.text(), "File does not contain a full 108-element float32 vector");
    let back: Vec<f32> = parse_npy_weight_words(&file).unwrap().into_iter().map(f32::from_bits).collect();
    assert_eq!(back[7], 0.007f32);
}

#[test]
fn tempered_choice_keeps_moves_near_the_best() {
    let values = vec![120, 100, 89, 121, -5];
    let losses = tempered_losses(&values, 30);
    assert_eq!(losses, vec![Some(1), Some(21), None, Some(0), None]);
    assert_eq!(tempered_losses(&vec![7], 0), vec![Some(0)]);
    assert_eq!(tempered_losses(&vec![5, 5], 0), vec![Some(0), Some(0)]);
}
