use std::cmp::Ordering;
use std::sync::atomic::AtomicBool;

use core_engine::controllers::{
    IterativeDeepeningController, ProgressChannel, ProgressLog, Published, SearchProgress, SimulationController,
};
use core_engine::evaluators::{
    default_evaluator_weights, PositionEvaluator, SimpleHeuristicPositionEvaluator, StaticDotProductEvaluator,
};
use core_engine::luts::EngineLUTs;
use core_engine::moves::Move;
use core_engine::negamax::{negamax, NegamaxStateMachine, StepResult};
use core_engine::score::{extract_score_value, invert_score, EvaluationScore};
use core_engine::search::{
    commit_node_to_tt, compile_pv_line, evaluate_node_bounds, evaluate_tt_cache, generate_and_order_moves,
    NeverCancelled, NoOpTelemetry, SearchContext,
};
use core_engine::state::{GameState, Player};
use core_engine::telemetry::ActiveTelemetry;
use core_engine::tt::{HashEntryBounds, TranspositionTable};

fn start() -> GameState {
    GameState::new(0x0000_0000_0000_ffff, 0xffff_0000_0000_0000, Player::P1)
}

fn legal(state: &GameState) -> Vec<Move> {
    state.generate_legal_moves().as_slice().to_vec()
}

#[test]
fn scores_invert_and_order() {
    assert_eq!(invert_score(EvaluationScore::Value(5)), EvaluationScore::Value(-5));
    assert_eq!(invert_score(EvaluationScore::Value(i32::MIN)), EvaluationScore::Value(i32::MAX));
    assert_eq!(invert_score(EvaluationScore::Mating(3)), EvaluationScore::Mated(4));
    assert_eq!(invert_score(EvaluationScore::Mated(0)), EvaluationScore::Mating(1));
    assert_eq!(invert_score(EvaluationScore::Mated(u32::MAX)), EvaluationScore::Mating(0));
    assert!(EvaluationScore::Mating(1) > EvaluationScore::Mating(3));
    assert!(EvaluationScore::Mated(1) < EvaluationScore::Mated(3));
    assert!(EvaluationScore::Value(100) < EvaluationScore::Mating(50));
    assert!(EvaluationScore::Mated(0) < EvaluationScore::Value(i32::MIN));
    assert!(EvaluationScore::Value(-1) < EvaluationScore::Value(1));
    assert!(EvaluationScore::Value(2).gt(&EvaluationScore::Value(1)));
    assert!(EvaluationScore::Value(2).ge(&EvaluationScore::Value(2)));
    assert_eq!(EvaluationScore::default(), EvaluationScore::Value(0));
    assert_eq!(extract_score_value(EvaluationScore::Mating(5)), i32::MAX - 5);
    assert_eq!(extract_score_value(EvaluationScore::Mated(5)), i32::MIN + 5);
    assert_eq!(extract_score_value(EvaluationScore::Value(-7)), -7);
}

#[test]
fn inverting_reverses_the_order_of_scores() {
    let scores = [
        EvaluationScore::Mated(0),
        EvaluationScore::Mated(4),
        EvaluationScore::Value(-30),
        EvaluationScore::Value(0),
        EvaluationScore::Value(12),
        EvaluationScore::Mating(6),
        EvaluationScore::Mating(1),
    ];
    for i in 0..scores.len() {
        for j in (i + 1)..scores.len() {
            assert!(scores[i] < scores[j]);
            assert!(invert_score(scores[j]) < invert_score(scores[i]));
        }
    }
    assert_eq!(invert_score(invert_score(EvaluationScore::Value(9))), EvaluationScore::Value(9));
    assert_eq!(invert_score(invert_score(EvaluationScore::Mating(2))), EvaluationScore::Mating(4));
}

#[test]
fn table_reads_back_what_was_stored() {
    let mut tt = TranspositionTable::with_capacity(4);
    let s = start();
    assert!(tt.lookup(&s).is_none());
    tt.store(&s, EvaluationScore::Value(42), 3, HashEntryBounds::Exact);
    let e = tt.lookup(&s).unwrap();
    assert_eq!((e.score, e.depth, e.bounds), (EvaluationScore::Value(42), 3, HashEntryBounds::Exact));
    // A shallower result for the same position does not replace a deeper one.
    tt.store(&s, EvaluationScore::Value(7), 1, HashEntryBounds::Lower);
    assert_eq!(tt.lookup(&s).unwrap().score, EvaluationScore::Value(42));
    // An equally deep one does.
    tt.store(&s, EvaluationScore::Value(8), 3, HashEntryBounds::Upper);
    let e = tt.lookup(&s).unwrap();
    assert_eq!((e.score, e.bounds), (EvaluationScore::Value(8), HashEntryBounds::Upper));
    // The side to move is part of the key.
    let mut other = s;
    other.switch_turn();
    let found = tt.lookup(&other);
    assert!(found.is_none() || found.unwrap().state_key != e.state_key);
}

#[test]
fn cache_cutoffs_follow_the_bound_class() {
    let s = start();
    let alpha = EvaluationScore::Value(-10);
    let beta = EvaluationScore::Value(10);
    let mut tt = TranspositionTable::with_capacity(4);
    assert_eq!(evaluate_tt_cache(&s, &tt, 2, alpha, beta), None);
    tt.store(&s, EvaluationScore::Value(3), 2, HashEntryBounds::Exact);
    assert_eq!(evaluate_tt_cache(&s, &tt, 2, alpha, beta), Some(EvaluationScore::Value(3)));
    assert_eq!(evaluate_tt_cache(&s, &tt, 3, alpha, beta), None);
    tt.store(&s, EvaluationScore::Value(12), 2, HashEntryBounds::Lower);
    assert_eq!(evaluate_tt_cache(&s, &tt, 1, alpha, beta), Some(EvaluationScore::Value(12)));
    tt.store(&s, EvaluationScore::Value(5), 2, HashEntryBounds::Lower);
    assert_eq!(evaluate_tt_cache(&s, &tt, 1, alpha, beta), None);
    tt.store(&s, EvaluationScore::Value(-20), 2, HashEntryBounds::Upper);
    assert_eq!(evaluate_tt_cache(&s, &tt, 2, alpha, beta), Some(EvaluationScore::Value(-20)));
}

#[test]
fn committed_results_are_classified_by_the_window() {
    let s = start();
    let mut tt = TranspositionTable::with_capacity(3);
    let alpha = EvaluationScore::Value(0);
    let beta = EvaluationScore::Value(100);
    commit_node_to_tt(&s, &mut tt, EvaluationScore::Value(0), alpha, beta, 4);
    assert_eq!(tt.lookup(&s).unwrap().bounds, HashEntryBounds::Upper);
    commit_node_to_tt(&s, &mut tt, EvaluationScore::Value(100), alpha, beta, 4);
    assert_eq!(tt.lookup(&s).unwrap().bounds, HashEntryBounds::Lower);
    commit_node_to_tt(&s, &mut tt, EvaluationScore::Value(50), alpha, beta, 4);
    assert_eq!(tt.lookup(&s).unwrap().bounds, HashEntryBounds::Exact);
}

#[test]
fn principal_variations_are_prefixed() {
    let a = Move::new(1, 2, 0);
    let b = Move::new(3, 4, 0);
    let c = Move::new(5, 6, 1);
    assert_eq!(compile_pv_line(a, &[b, c]), vec![a, b, c]);
    assert_eq!(compile_pv_line(a, &[]), vec![a]);
}

#[test]
fn node_bounds_settle_terminal_nodes() {
    let luts = EngineLUTs::get_engine_luts();
    let evaluator = StaticDotProductEvaluator::new(default_evaluator_weights());
    let never = NeverCancelled;
    let ctx = SearchContext { evaluator: &evaluator, luts: &luts, cancelled: &never };
    let lost = GameState::new(1, 1 << 63, Player::P1);
    let no_moves = generate_and_order_moves(&lost, 3, &luts);
    assert_eq!(evaluate_node_bounds(&lost, &ctx, &no_moves, 3), Some(EvaluationScore::Mated(0)));
    let s = start();
    let moves = generate_and_order_moves(&s, 3, &luts);
    assert_eq!(evaluate_node_bounds(&s, &ctx, &moves, 0), Some(evaluator.evaluate(&s)));
    assert_eq!(evaluate_node_bounds(&s, &ctx, &moves, 2), None);
}

#[test]
fn ordered_moves_are_a_permutation_of_the_legal_moves() {
    let luts = EngineLUTs::get_engine_luts();
    let s = start();
    let plain = generate_and_order_moves(&s, 1, &luts);
    assert_eq!(plain.as_slice().to_vec(), legal(&s));
    let ordered = generate_and_order_moves(&s, 3, &luts);
    let mut a = ordered.as_slice().to_vec();
    let mut b = legal(&s);
    a.sort_by_key(|m| (m.from_square(), m.to_square()));
    b.sort_by_key(|m| (m.from_square(), m.to_square()));
    assert_eq!(a, b);
}

/// Runs the machine by hand and checks what the search promises along the way.
fn run_machine(state: GameState, depth: usize) -> (EvaluationScore, Vec<Move>, GameState) {
    let luts = EngineLUTs::get_engine_luts();
    let evaluator = StaticDotProductEvaluator::new(default_evaluator_weights());
    let never = NeverCancelled;
    let telemetry = NoOpTelemetry;
    let ctx = SearchContext { evaluator: &evaluator, luts: &luts, cancelled: &never };
    let mut machine = NegamaxStateMachine::new(&ctx, TranspositionTable::with_capacity(10), &telemetry, state, depth);
    let mut status = StepResult::Deepen;
    let mut guard = 0usize;
    loop {
        guard += 1;
        assert!(guard < 5_000_000);
        assert!(machine.stack.len() <= depth + 1);
        match status {
            StepResult::Deepen => status = machine.step(),
            StepResult::Backtrack { score, pv } => status = machine.handle_backtrack(score, pv),
            StepResult::Done { best_score, pv } => {
                assert!(machine.stack.is_empty());
                return (best_score, pv, machine.state);
            },
        }
    }
}

fn is_legal_line(mut s: GameState, line: &[Move]) -> bool {
    for m in line {
        if !legal(&s).contains(m) {
            return false;
        }
        s.make_move(*m);
    }
    true
}

#[test]
fn search_restores_the_position_and_returns_a_legal_line() {
    for (state, depth) in [
        (start(), 1usize),
        (start(), 2),
        (start(), 3),
        (GameState::new(0b11, 1 << 63, Player::P1), 3),
        (GameState::new(0x30400, 0x3, Player::P2), 3),
    ] {
        let (_, pv, end) = run_machine(state, depth);
        assert_eq!(end, state);
        assert!(pv.len() <= depth);
        assert!(is_legal_line(state, &pv));
    }
}

#[test]
fn search_of_a_lost_position_is_a_loss_now() {
    let lost = GameState::new(1, 1 << 63, Player::P1);
    let (score, pv, _) = run_machine(lost, 4);
    assert_eq!(score, EvaluationScore::Mated(0));
    assert!(pv.is_empty());
}

#[test]
fn depth_zero_search_is_the_evaluation() {
    let evaluator = StaticDotProductEvaluator::new(default_evaluator_weights());
    let s = start();
    let (score, pv, _) = run_machine(s, 0);
    assert_eq!(score, evaluator.evaluate(&s));
    assert!(pv.is_empty());
}

#[test]
fn one_ply_search_takes_the_best_child() {
    let evaluator = StaticDotProductEvaluator::new(default_evaluator_weights());
    let s = GameState::new(0x30400, 0x3, Player::P2);
    let (score, pv, _) = run_machine(s, 1);
    let best = legal(&s)
        .into_iter()
        .map(|m| {
            let mut t = s;
            t.make_move(m);
            invert_score(evaluator.evaluate(&t))
        })
        .fold(EvaluationScore::Mated(0), |a, b| if b > a { b } else { a });
    assert_eq!(score, best);
    assert_eq!(pv.len(), 1);
}

#[test]
fn recursive_negamax_settles_leaves() {
    let luts = EngineLUTs::get_engine_luts();
    let evaluator = StaticDotProductEvaluator::new(default_evaluator_weights());
    let never = NeverCancelled;
    let telemetry = ActiveTelemetry::new();
    let ctx = SearchContext { evaluator: &evaluator, luts: &luts, cancelled: &never };
    let mut tt = TranspositionTable::with_capacity(8);
    let lost = GameState::new(1, 1 << 63, Player::P1);
    let window = (EvaluationScore::Mated(0), EvaluationScore::Mating(0));
    assert_eq!(negamax(&ctx, &telemetry, &mut tt, &lost, 3, window.0, window.1), EvaluationScore::Mated(0));
    let s = start();
    assert_eq!(negamax(&ctx, &telemetry, &mut tt, &s, 0, window.0, window.1), evaluator.evaluate(&s));
    assert_eq!(telemetry.nodes(), 2);
    // The state machine and the recursion agree at one ply.
    let mut fresh = TranspositionTable::with_capacity(8);
    let rec = negamax(&ctx, &telemetry, &mut fresh, &s, 1, window.0, window.1);
    let (machine_score, _, _) = run_machine(s, 1);
    assert_eq!(rec, machine_score);
}

#[test]
fn cancelled_search_stops_at_once() {
    let luts = EngineLUTs::get_engine_luts();
    let evaluator = SimpleHeuristicPositionEvaluator::new();
    let cancelled = AtomicBool::new(true);
    let ctx = SearchContext { evaluator: &evaluator, luts: &luts, cancelled: &cancelled };
    let telemetry = NoOpTelemetry;
    let mut machine = NegamaxStateMachine::new(&ctx, TranspositionTable::with_capacity(4), &telemetry, start(), 3);
    match machine.step() {
        StepResult::Done { best_score, pv } => {
            assert_eq!(best_score, EvaluationScore::Value(0));
            assert!(pv.is_empty());
        },
        _ => panic!("a cancelled search must stop"),
    }
    assert_eq!(machine.stack.len(), 1);
    assert_eq!(machine.state, start());
}

#[test]
fn root_candidates_follow_the_move_order() {
    let luts = EngineLUTs::get_engine_luts();
    let evaluator = StaticDotProductEvaluator::new(default_evaluator_weights());
    let never = NeverCancelled;
    let ctx = SearchContext { evaluator: &evaluator, luts: &luts, cancelled: &never };
    for depth in 1..=3usize {
        let s = GameState::new(0x0000_0000_0018_0000, 0x0000_1800_0000_0000, Player::P1);
        let order = generate_and_order_moves(&s, depth, &luts);
        let controller = SimulationController::new(&ctx, depth);
        let mut tt = TranspositionTable::with_capacity(10);
        let progress = controller.search_candidates(&s, &mut tt);
        let moves: Vec<Move> = progress.candidates.iter().map(|c| c.current_move).collect();
        let listed: Vec<Move> = order.as_slice().to_vec();
        assert_eq!(moves, listed);
    }
}

#[test]
fn simulation_controller_scores_every_root_move() {
    let luts = EngineLUTs::get_engine_luts();
    let evaluator = StaticDotProductEvaluator::new(default_evaluator_weights());
    let never = AtomicBool::new(false);
    let ctx = SearchContext { evaluator: &evaluator, luts: &luts, cancelled: &never };
    let controller = SimulationController::new(&ctx, 2);
    let s = GameState::new(0x30400, 0x3, Player::P2);
    let mut tt = TranspositionTable::with_capacity(10);
    let progress = controller.search_candidates(&s, &mut tt);
    let root = legal(&s);
    assert_eq!(progress.candidates.len(), root.len());
    for c in &progress.candidates {
        assert!(root.contains(&c.current_move));
    }
    assert_eq!(progress.depth_reached, 2);
    let mut tt2 = TranspositionTable::with_capacity(10);
    let best = controller.search(&s, &mut tt2);
    let top = progress.candidates.iter().map(|c| c.score).fold(EvaluationScore::Mated(0), |a, b| if b > a { b } else { a });
    assert_eq!(best, top);
}

#[test]
fn iterative_deepening_publishes_each_layer() {
    let luts = EngineLUTs::get_engine_luts();
    let evaluator = StaticDotProductEvaluator::new(default_evaluator_weights());
    let never = AtomicBool::new(false);
    let ctx = SearchContext { evaluator: &evaluator, luts: &luts, cancelled: &never };
    let mut controller = IterativeDeepeningController::new(&ctx, 1, 3, ProgressLog::new());
    let s = GameState::new(0x30400, 0x3, Player::P2);
    let result = controller.search(&s);
    let listed = legal(&s);
    let reports = &controller.shared_progress.reports;
    for p in reports.iter() {
        assert!(p.candidates.iter().all(|c| listed.contains(&c.current_move)));
    }
    let published: Vec<(usize, usize, usize)> =
        reports.iter().map(|p| (p.depth_reached, p.candidates.len(), p.nodes_explored)).collect();
    let n = listed.len();
    assert_eq!(published.len(), 4);
    assert_eq!(published[0], (0, n, 0));
    assert!(reports[0].candidates.iter().all(|c| c.score == EvaluationScore::Value(i32::MIN)));
    assert_eq!((published[1].0, published[1].1), (1, n));
    assert_eq!((published[2].0, published[2].1), (2, n));
    assert_eq!((published[3].0, published[3].1), (3, n));
    assert!(published[1].2 < published[2].2 && published[2].2 < published[3].2);
    // What the search returns is what it published last.
    assert_eq!(result.depth_reached, reports[3].depth_reached);
    assert_eq!(result.nodes_explored, reports[3].nodes_explored);
    assert_eq!(result.candidates.len(), reports[3].candidates.len());
    for (a, b) in result.candidates.iter().zip(reports[3].candidates.iter()) {
        assert_eq!(a.current_move, b.current_move);
        assert_eq!(a.score, b.score);
    }
    // A lost root ends the search after the opening report.
    let mut controller2 = IterativeDeepeningController::new(&ctx, 1, 3, ProgressLog::new());
    controller2.search(&GameState::new(1, 1 << 63, Player::P1));
    let reports2 = &controller2.shared_progress.reports;
    assert_eq!(reports2.len(), 1);
    assert_eq!((reports2[0].depth_reached, reports2[0].candidates.len(), reports2[0].nodes_explored), (0, 0, 0));
}

struct DepthRecorder {
    depths: std::cell::RefCell<Vec<(usize, usize)>>,
}

impl ProgressChannel for DepthRecorder {
    fn send(&self, root: &GameState, progress: SearchProgress) {
        let listed = legal(root);
        assert!(progress.candidates.iter().all(|c| listed.contains(&c.current_move)));
        self.depths.borrow_mut().push((progress.depth_reached, progress.candidates.len()));
    }
}

#[test]
fn published_sink_hands_every_report_on() {
    let luts = EngineLUTs::get_engine_luts();
    let evaluator = StaticDotProductEvaluator::new(default_evaluator_weights());
    let never = NeverCancelled;
    let ctx = SearchContext { evaluator: &evaluator, luts: &luts, cancelled: &never };
    let sink = Published::new(DepthRecorder { depths: std::cell::RefCell::new(Vec::new()) });
    let mut controller = IterativeDeepeningController::new(&ctx, 2, 3, sink);
    let s = GameState::new(0x30400, 0x3, Player::P2);
    let result = controller.search(&s);
    let n = legal(&s).len();
    assert_eq!(*controller.shared_progress.channel.depths.borrow(), vec![(0, n), (2, n), (3, n)]);
    assert_eq!(result.depth_reached, 3);
}

#[test]
fn scores_compare_totally() {
    assert_eq!(EvaluationScore::Mating(1).cmp(&EvaluationScore::Mating(3)), Ordering::Greater);
    assert_eq!(EvaluationScore::Mated(1).cmp(&EvaluationScore::Mated(3)), Ordering::Less);
    assert_eq!(EvaluationScore::Value(5).cmp(&EvaluationScore::Value(5)), Ordering::Equal);
    assert_eq!(EvaluationScore::Value(i32::MAX).cmp(&EvaluationScore::Mating(u32::MAX)), Ordering::Less);
    assert_eq!(EvaluationScore::Mated(u32::MAX).cmp(&EvaluationScore::Value(i32::MIN)), Ordering::Less);
    let a = EvaluationScore::Value(-3);
    let b = EvaluationScore::Mated(2);
    assert_eq!(a.partial_cmp(&b), Some(a.cmp(&b)));
}

/// The negamax value computed by plain recursion over every legal move, no window, no cache.
fn brute_value<E: PositionEvaluator>(evaluator: &E, state: &GameState, depth: usize) -> EvaluationScore {
    if depth == 0 {
        return evaluator.evaluate(state);
    }
    let moves = legal(state);
    if moves.is_empty() {
        return EvaluationScore::Mated(0);
    }
    let mut best = EvaluationScore::Mated(0);
    for m in moves {
        let mut next = *state;
        next.make_move(m);
        let v = invert_score(brute_value(evaluator, &next, depth - 1));
        if v.gt(&best) {
            best = v;
        }
    }
    best
}

fn same_outcome(a: EvaluationScore, b: EvaluationScore) -> bool {
    match (a, b) {
        (EvaluationScore::Value(x), EvaluationScore::Value(y)) => x == y,
        (EvaluationScore::Mating(_), EvaluationScore::Mating(_)) => true,
        (EvaluationScore::Mated(_), EvaluationScore::Mated(_)) => true,
        _ => false,
    }
}

#[test]
fn alpha_beta_gives_the_negamax_value() {
    let luts = EngineLUTs::get_engine_luts();
    let evaluator = StaticDotProductEvaluator::new(default_evaluator_weights());
    let never = NeverCancelled;
    let telemetry = NoOpTelemetry;
    let ctx = SearchContext { evaluator: &evaluator, luts: &luts, cancelled: &never };
    let positions = [
        start(),
        GameState::new(0x0000_0000_0018_0000, 0x0000_1800_0000_0000, Player::P1),
        GameState::new(0x0000_0000_0000_0303, 0x0000_0000_0c0c_0000, Player::P2),
    ];
    for s in positions.iter() {
        for depth in 1..=3usize {
            let expected = brute_value(&evaluator, s, depth);
            let mut tt = TranspositionTable::with_capacity(12);
            let full = negamax(&ctx, &telemetry, &mut tt, s, depth, EvaluationScore::Mated(0), EvaluationScore::Mating(0));
            assert!(same_outcome(full, expected), "{:?} vs {:?} at depth {}", full, expected, depth);
            if let EvaluationScore::Value(v) = expected {
                // A window above the value fails low, a window below it fails high.
                let mut tt = TranspositionTable::with_capacity(12);
                let low = negamax(&ctx, &telemetry, &mut tt, s, depth, EvaluationScore::Value(v + 10), EvaluationScore::Value(v + 20));
                assert!(low.le(&EvaluationScore::Value(v + 10)));
                let mut tt = TranspositionTable::with_capacity(12);
                let high = negamax(&ctx, &telemetry, &mut tt, s, depth, EvaluationScore::Value(v - 20), EvaluationScore::Value(v - 10));
                assert!(high.ge(&EvaluationScore::Value(v - 10)));
            }
        }
    }
}

#[test]
fn value_window_search_keeps_mate_distances() {
    let luts = EngineLUTs::get_engine_luts();
    let evaluator = StaticDotProductEvaluator::new(default_evaluator_weights());
    let never = NeverCancelled;
    let telemetry = NoOpTelemetry;
    let ctx = SearchContext { evaluator: &evaluator, luts: &luts, cancelled: &never };
    let positions = [
        start(),
        GameState::new(1, 1 << 63, Player::P1),
        GameState::new(1, 1 << 63, Player::P2),
        GameState::new(0x0000_0000_0000_0003, 0x8000_0000_0000_0000, Player::P1),
        GameState::new(0x0000_0000_0000_0001, 0xc000_0000_0000_0000, Player::P1),
        GameState::new(0x0000_0000_0018_0000, 0x0000_1800_0000_0000, Player::P1),
    ];
    let alpha = EvaluationScore::Value(-1_000_000);
    let beta = EvaluationScore::Value(1_000_000);
    for s in positions.iter() {
        for depth in 1..=4usize {
            let expected = brute_value(&evaluator, s, depth);
            let mut tt = TranspositionTable::with_capacity(12);
            let r = negamax(&ctx, &telemetry, &mut tt, s, depth, alpha, beta);
            if r > alpha && r < beta {
                assert_eq!(r, expected);
            }
            if r <= alpha {
                assert!(expected <= r, "{:?} above {:?}", expected, r);
            }
            if r >= beta {
                assert!(expected >= r, "{:?} below {:?}", expected, r);
            }
        }
    }
}

/// The value the machine's nodes stand for: a loss now without legal moves, the evaluation at
/// the depth limit, else the best child value turned around.
fn node_value<E: PositionEvaluator>(evaluator: &E, state: &GameState, depth: usize) -> EvaluationScore {
    let moves = legal(state);
    if moves.is_empty() {
        return EvaluationScore::Mated(0);
    }
    if depth == 0 {
        return evaluator.evaluate(state);
    }
    let mut best = EvaluationScore::Mated(0);
    for m in moves {
        let mut next = *state;
        next.make_move(m);
        let v = invert_score(node_value(evaluator, &next, depth - 1));
        if v.gt(&best) {
            best = v;
        }
    }
    best
}

#[test]
fn machine_search_gives_the_node_value() {
    let luts = EngineLUTs::get_engine_luts();
    let evaluator = StaticDotProductEvaluator::new(default_evaluator_weights());
    let never = NeverCancelled;
    let ctx = SearchContext { evaluator: &evaluator, luts: &luts, cancelled: &never };
    let positions = [
        start(),
        GameState::new(0x0000_0000_0018_0000, 0x0000_1800_0000_0000, Player::P1),
        GameState::new(0x0000_0000_0000_0303, 0x0000_0000_0c0c_0000, Player::P2),
    ];
    for s in positions.iter() {
        for depth in 1..=3usize {
            let controller = SimulationController::new(&ctx, depth);
            let mut tt = TranspositionTable::with_capacity(12);
            let r = controller.search(s, &mut tt);
            let expected = node_value(&evaluator, s, depth);
            assert!(same_outcome(r, expected), "{:?} vs {:?} at depth {}", r, expected, depth);
            let mut tt = TranspositionTable::with_capacity(12);
            let progress = controller.search_candidates(s, &mut tt);
            assert_eq!(progress.candidates.len(), legal(s).len());
            for c in progress.candidates.iter() {
                let mut next = *s;
                next.make_move(c.current_move);
                let child = invert_score(node_value(&evaluator, &next, depth - 1));
                assert!(same_outcome(c.score, child), "{:?} vs {:?}", c.score, child);
            }
        }
    }
}

#[test]
fn iterative_deepening_scores_root_moves_by_their_values() {
    let luts = EngineLUTs::get_engine_luts();
    let evaluator = StaticDotProductEvaluator::new(default_evaluator_weights());
    let never = NeverCancelled;
    let ctx = SearchContext { evaluator: &evaluator, luts: &luts, cancelled: &never };
    let mut controller = IterativeDeepeningController::new(&ctx, 1, 3, ProgressLog::new());
    let s = GameState::new(0x0000_0000_0018_0000, 0x0000_1800_0000_0000, Player::P1);
    let result = controller.search(&s);
    assert_eq!(result.depth_reached, 3);
    assert_eq!(result.candidates.len(), legal(&s).len());
    for c in result.candidates.iter() {
        let mut next = s;
        next.make_move(c.current_move);
        let child = invert_score(node_value(&evaluator, &next, 2));
        assert!(same_outcome(c.score, child), "{:?} vs {:?}", c.score, child);
    }
    let published = controller.shared_progress.reports.last();
    assert_eq!(published.map(|p| p.depth_reached), Some(3));
}
