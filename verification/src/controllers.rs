use vstd::prelude::*;
use crate::evaluators::PositionEvaluator;
use crate::negamax::{NegamaxStateMachine, StepResult, legal_line, lemma_path_step, frame_ok, path_position, fail_soft,
    machine_premises, node_value, node_values, outcome, table_grows, table_covers, plain_leaves, keys_apart,
    lemma_empty_table_covers, lemma_covers_fits, lemma_covers_grow, lemma_keys_apart_shallower};
use crate::score::{EvaluationScore, ScoredMove, invert_score, spec_invert_score};
use crate::search::{
    CancelSignal, NoOpTelemetry, SearchContext, SearchTelemetry, lemma_listed_moves_legal, spec_bounds_class,
    spec_node_bounds, spec_tt_cutoff, is_move_order,
};
use crate::moves::{Move, capped};
use crate::state::{GameState, is_legal_move, legal_moves, spec_make_move, spec_unmake_move};
use crate::tt::{TranspositionTable, TranspositionEntry, spec_lookup, spec_store};

verus! {

/// What a search reports: the scored root moves of its deepest finished layer, that depth,
/// and the nodes it visited.
pub struct SearchProgress {
    pub candidates: Vec<ScoredMove>,
    pub depth_reached: usize,
    pub nodes_explored: usize,
    /// The principal line, when the search reports one.
    pub pv: Vec<Move>,
}

/// Every candidate is a legal move of the position.
pub open spec fn candidates_legal(s: GameState, candidates: Seq<ScoredMove>) -> bool {
    forall|i: int| 0 <= i < candidates.len() ==> is_legal_move(s, #[trigger] candidates[i].current_move)
}

/// Where the machine stands between two calls: about to step, awaiting the result in `status`,
/// or finished.
pub open spec fn machine_ready<'a, E: PositionEvaluator, C: CancelSignal, T: SearchTelemetry>(
    machine: &NegamaxStateMachine<'a, E, C, T>,
    status: StepResult,
) -> bool {
    match status {
        StepResult::Deepen => machine.inv(false),
        StepResult::Backtrack { score, pv } => machine.inv(true) && legal_line(machine.state, pv@),
        StepResult::Done { .. } => machine.tt.wf(),
    }
}

/// The work the machine has left in that stance.
pub open spec fn machine_work<'a, E: PositionEvaluator, C: CancelSignal, T: SearchTelemetry>(
    machine: &NegamaxStateMachine<'a, E, C, T>,
    status: StepResult,
) -> int {
    match status {
        StepResult::Deepen => machine.work_left(false),
        StepResult::Backtrack { .. } => machine.work_left(true),
        StepResult::Done { .. } => 0,
    }
}

/// What the machine's run stands for so far, under its premises: an open machine stands for
/// the node values of its frames and of a pending result, a finished one for the root's.
#[verifier::opaque]
pub open spec fn run_law<'a, E: PositionEvaluator, C: CancelSignal, T: SearchTelemetry>(
    machine: &NegamaxStateMachine<'a, E, C, T>,
    status: StepResult,
    opened: Seq<Seq<Option<TranspositionEntry>>>,
    before: Seq<Option<TranspositionEntry>>,
    root: GameState,
    depth: usize,
) -> bool {
    &&& opened.len() >= 1
    &&& opened[0] == before
    &&& match status {
        StepResult::Deepen => machine.machine_law(false, opened),
        StepResult::Backtrack { score, pv } => machine.machine_law(true, opened) && machine.pending_law(score, opened),
        StepResult::Done { best_score, pv } => fail_soft(
            best_score,
            node_value(machine.ctx.evaluator, root, depth as nat),
            EvaluationScore::Mated(0),
            EvaluationScore::Mating(0),
            false,
        ) && table_grows(
            node_values(machine.ctx.evaluator),
            before,
            machine.tt.entries(),
            machine.tt.index_mask(),
            root,
            depth as nat,
            false,
        ),
    }
}

/// A run opened under the premises stands for the node values.
proof fn lemma_run_start<'a, E: PositionEvaluator, C: CancelSignal, T: SearchTelemetry>(
    machine: &NegamaxStateMachine<'a, E, C, T>,
    before: Seq<Option<TranspositionEntry>>,
)
    requires
        machine.inv(false),
        machine.stack@.len() == 1,
        machine.stack@[0].move_idx == 0,
        machine.stack@[0].alpha == EvaluationScore::Mated(0),
        machine.stack@[0].beta == EvaluationScore::Mating(0),
        machine.stack@[0].original_alpha == EvaluationScore::Mated(0),
        machine.stack@[0].max_score == EvaluationScore::Mated(0),
        is_move_order(machine.ctx.luts, machine.root@, machine.max_depth as int, machine.stack@[0].legal_moves@),
        machine.tt.entries() == before,
        machine_premises(
            machine.ctx.evaluator,
            machine.ctx.cancelled.can_cancel(),
            before,
            machine.tt.index_mask(),
            machine.root@,
            machine.max_depth as nat,
        ),
    ensures
        run_law(machine, StepResult::Deepen, seq![before], before, machine.root@, machine.max_depth),
{
    reveal(run_law);
    machine.lemma_law_start();
}

/// A step of a run that stands for the node values keeps it so.
#[verifier::spinoff_prover]
proof fn lemma_run_step<'a, E: PositionEvaluator, C: CancelSignal, T: SearchTelemetry>(
    prior: &NegamaxStateMachine<'a, E, C, T>,
    new: &NegamaxStateMachine<'a, E, C, T>,
    status: StepResult,
    opened: Seq<Seq<Option<TranspositionEntry>>>,
    before: Seq<Option<TranspositionEntry>>,
) -> (opened2: Seq<Seq<Option<TranspositionEntry>>>)
    requires
        prior.inv(false),
        run_law(prior, StepResult::Deepen, opened, before, prior.root@, prior.max_depth),
        new.same_setup(prior),
        (prior.stopped(new, status) && prior.ctx.cancelled.can_cancel()) || prior.step_outcome(new, status),
        new.reports(prior, status, false),
    ensures
        run_law(new, status, opened2, before, prior.root@, prior.max_depth),
{
    reveal(run_law);
    let opened2 = NegamaxStateMachine::lemma_law_step(prior, new, status, opened);
    assert(opened2.len() >= 1 && opened2[0] == opened[0]);
    opened2
}

/// Handing a result back in a run that stands for the node values keeps it so.
#[verifier::spinoff_prover]
proof fn lemma_run_backtrack<'a, E: PositionEvaluator, C: CancelSignal, T: SearchTelemetry>(
    prior: &NegamaxStateMachine<'a, E, C, T>,
    new: &NegamaxStateMachine<'a, E, C, T>,
    status: StepResult,
    score: EvaluationScore,
    pv: Seq<Move>,
    prior_pv: Vec<Move>,
    opened: Seq<Seq<Option<TranspositionEntry>>>,
    before: Seq<Option<TranspositionEntry>>,
) -> (opened2: Seq<Seq<Option<TranspositionEntry>>>)
    requires
        prior.inv(true),
        run_law(prior, StepResult::Backtrack { score, pv: prior_pv }, opened, before, prior.root@, prior.max_depth),
        new.same_setup(prior),
        prior.backtrack_outcome(new, status, score, pv),
        new.reports(prior, status, true),
    ensures
        run_law(new, status, opened2, before, prior.root@, prior.max_depth),
{
    reveal(run_law);
    let opened2 = NegamaxStateMachine::lemma_law_backtrack(prior, new, status, score, pv, opened);
    assert(opened2.len() >= 1 && opened2[0] == opened[0]);
    opened2
}

/// A finished run that stood for the node values gives the root's.
proof fn lemma_run_done<'a, E: PositionEvaluator, C: CancelSignal, T: SearchTelemetry>(
    machine: &NegamaxStateMachine<'a, E, C, T>,
    score: EvaluationScore,
    pv: Vec<Move>,
    opened: Seq<Seq<Option<TranspositionEntry>>>,
    before: Seq<Option<TranspositionEntry>>,
    root: GameState,
    depth: usize,
)
    requires
        run_law(machine, StepResult::Done { best_score: score, pv }, opened, before, root, depth),
    ensures
        outcome(score) == outcome(node_value(machine.ctx.evaluator, root, depth as nat)),
        table_grows(node_values(machine.ctx.evaluator), before, machine.tt.entries(), machine.tt.index_mask(), root, depth as nat, false),
{
    reveal(run_law);
    lemma_full_window(score, node_value(machine.ctx.evaluator, root, depth as nat));
}

/// Every candidate's score has the outcome of its move's node value one ply less deep,
/// turned to the root's side.
pub open spec fn candidates_valued<E: PositionEvaluator>(
    ev: &E,
    root: GameState,
    depth: usize,
    cands: Seq<ScoredMove>,
) -> bool {
    forall|i: int|
        0 <= i < cands.len() ==> outcome((#[trigger] cands[i]).score) == outcome(
            spec_invert_score(node_value(ev, spec_make_move(root, cands[i].current_move), (depth - 1) as nat)),
        )
}

/// A result handed to the root frame of a run that stands for the node values, turned to the
/// root's side, has the outcome of the root move's node value turned around.
proof fn lemma_run_root_child<'a, E: PositionEvaluator, C: CancelSignal, T: SearchTelemetry>(
    machine: &NegamaxStateMachine<'a, E, C, T>,
    score: EvaluationScore,
    pv: Vec<Move>,
    opened: Seq<Seq<Option<TranspositionEntry>>>,
    before: Seq<Option<TranspositionEntry>>,
)
    requires
        machine.inv(true),
        run_law(machine, StepResult::Backtrack { score, pv }, opened, before, machine.root@, machine.max_depth),
        machine.stack@.len() == 1,
    ensures
        outcome(spec_invert_score(score)) == outcome(
            spec_invert_score(
                node_value(
                    machine.ctx.evaluator,
                    spec_make_move(machine.root@, crate::negamax::played_move(machine.stack@[0])),
                    (machine.max_depth - 1) as nat,
                ),
            ),
        ),
{
    reveal(run_law);
    machine.lemma_law_root_child(score, opened);
}

/// With the root's full window, the fail-soft relation is equality of outcomes.
pub proof fn lemma_full_window(r: EvaluationScore, v: EvaluationScore)
    requires
        fail_soft(r, v, EvaluationScore::Mated(0), EvaluationScore::Mating(0), false),
    ensures
        outcome(r) == outcome(v),
{
}

/// A move of the root frame whose result has just come back is a legal move of the root.
proof fn lemma_root_move_legal<'a, E: PositionEvaluator, C: CancelSignal, T: SearchTelemetry>(
    machine: &NegamaxStateMachine<'a, E, C, T>,
    i: int,
)
    requires
        machine.inv(true),
        0 <= i < machine.stack@[0].legal_moves@.len(),
    ensures
        is_legal_move(machine.root@, machine.stack@[0].legal_moves@[i]),
{
    lemma_path_step(machine.root@, machine.stack@, 0);
    assert(frame_ok(machine.stack@[0], path_position(machine.root@, machine.stack@, 0)));
}

// ============================================================================
// FIXED-DEPTH SEARCH
// ============================================================================

/// What a finished search of `depth` plies settles its root with, and the cache it leaves: a
/// cache hit at the root settles it at once and changes nothing; a root without moves or
/// depth gets its terminal score, which is cached; else the root's best score is cached with
/// the bound class the full window gives it.
pub open spec fn settles_root<E: PositionEvaluator>(
    evaluator: &E,
    before: Seq<Option<TranspositionEntry>>,
    mask: usize,
    root: GameState,
    depth: usize,
    r: EvaluationScore,
    after: Seq<Option<TranspositionEntry>>,
) -> bool {
    let class = spec_bounds_class(r, EvaluationScore::Mated(0), EvaluationScore::Mating(0));
    match spec_tt_cutoff(spec_lookup(before, mask, root), depth, EvaluationScore::Mated(0), EvaluationScore::Mating(0)) {
        Some(c) => r == c && after == before,
        None => match spec_node_bounds(evaluator, root, capped(legal_moves(root)).len(), depth) {
            Some(v) => r == v && after == spec_store(before, mask, root, v, depth, class),
            None => exists|searched: Seq<Option<TranspositionEntry>>|
                searched.len() == before.len() && after == spec_store(searched, mask, root, r, depth, class),
        },
    }
}

/// The window and root facts a running search keeps at its root frame once the root played
/// its first move.
pub open spec fn root_running<'a, E: PositionEvaluator, C: CancelSignal, T: SearchTelemetry>(
    machine: &NegamaxStateMachine<'a, E, C, T>,
) -> bool {
    &&& machine.stack@[0].move_idx >= 1
    &&& machine.stack@[0].beta == EvaluationScore::Mating(0)
    &&& machine.stack@[0].original_alpha == EvaluationScore::Mated(0)
}

/// The root frame as the machine sets it up, before its first step.
pub open spec fn root_fresh<'a, E: PositionEvaluator, C: CancelSignal, T: SearchTelemetry>(
    machine: &NegamaxStateMachine<'a, E, C, T>,
    before: Seq<Option<TranspositionEntry>>,
    root: GameState,
) -> bool {
    &&& machine.stack@.len() == 1
    &&& machine.stack@[0].move_idx == 0
    &&& machine.stack@[0].alpha == EvaluationScore::Mated(0)
    &&& machine.stack@[0].beta == EvaluationScore::Mating(0)
    &&& machine.stack@[0].original_alpha == EvaluationScore::Mated(0)
    &&& machine.stack@[0].legal_moves@.len() == capped(legal_moves(root)).len()
    &&& machine.tt.entries() == before
    &&& machine.state == root
}

/// Neither the cache nor the position settles the root before its first move.
pub open spec fn root_open<E: PositionEvaluator>(
    evaluator: &E,
    before: Seq<Option<TranspositionEntry>>,
    mask: usize,
    root: GameState,
    depth: usize,
) -> bool {
    &&& spec_tt_cutoff(spec_lookup(before, mask, root), depth, EvaluationScore::Mated(0), EvaluationScore::Mating(0))
        is None
    &&& spec_node_bounds(evaluator, root, capped(legal_moves(root)).len(), depth) is None
}

/// A step keeps the root frame's window; the first step settles the root or opens it; a step
/// that finishes an uncancelled search settles the root.
proof fn lemma_step_keeps_root<'a, E: PositionEvaluator, C: CancelSignal, T: SearchTelemetry>(
    prior: &NegamaxStateMachine<'a, E, C, T>,
    after: &NegamaxStateMachine<'a, E, C, T>,
    status: StepResult,
    started: bool,
    before: Seq<Option<TranspositionEntry>>,
    root: GameState,
    depth: usize,
)
    requires
        prior.inv(false),
        prior.root@ == root,
        prior.max_depth == depth,
        prior.tt.entries().len() == prior.tt.index_mask() + 1,
        before.len() == prior.tt.index_mask() + 1,
        !started ==> root_fresh(prior, before, root),
        started ==> root_running(prior) && root_open(prior.ctx.evaluator, before, prior.tt.index_mask(), root, depth),
        after.same_setup(prior),
        (prior.stopped(after, status) && prior.ctx.cancelled.can_cancel()) || prior.step_outcome(after, status),
    ensures
        !started && status is Deepen ==> root_running(after) && root_open(
            prior.ctx.evaluator,
            before,
            prior.tt.index_mask(),
            root,
            depth,
        ),
        !started ==> status is Deepen || status is Done,
        started && !(status is Done) ==> root_running(after),
        status matches StepResult::Done { best_score, pv } ==> settles_root(
            prior.ctx.evaluator,
            before,
            prior.tt.index_mask(),
            root,
            depth,
            best_score,
            after.tt.entries(),
        ) || (prior.ctx.cancelled.can_cancel() && best_score == EvaluationScore::Value(0)),
{
    let n = prior.stack@.len() as int;
    if prior.step_outcome(after, status) {
        if started {
            if n == 1 {
                assert(prior.top() == prior.stack@[0]);
                assert(prior.top_cutoff() is None);
                lemma_path_step(prior.root@, prior.stack@, 0);
                assert(prior.state == root);
                if let StepResult::Done { best_score, pv } = status {
                    let searched = prior.tt.entries();
                    assert(after.tt.entries() == spec_store(
                        searched,
                        prior.tt.index_mask(),
                        root,
                        best_score,
                        depth,
                        spec_bounds_class(best_score, EvaluationScore::Mated(0), EvaluationScore::Mating(0)),
                    ));
                } else {
                    assert(after.stack@[0] == after.stack@[n - 1]);
                }
            } else {
                if prior.top_cutoff() is None && prior.top_closing() is None {
                    assert(after.stack@.take(n - 1)[0] == prior.stack@.take(n - 1)[0]);
                } else {
                    assert(after.stack@ == prior.stack@.drop_last());
                    assert(after.stack@[0] == prior.stack@.drop_last()[0]);
                }
            }
        } else {
            assert(prior.top() == prior.stack@[0]);
            assert(prior.top_remaining() == depth);
        }
    }
}

/// Folding a child's result into an uncancelled search keeps the root frame's window, and a
/// search it finishes has settled its root.
proof fn lemma_backtrack_keeps_root<'a, E: PositionEvaluator, C: CancelSignal, T: SearchTelemetry>(
    prior: &NegamaxStateMachine<'a, E, C, T>,
    after: &NegamaxStateMachine<'a, E, C, T>,
    status: StepResult,
    child_score: EvaluationScore,
    child_pv: Seq<Move>,
    before: Seq<Option<TranspositionEntry>>,
    root: GameState,
    depth: usize,
)
    requires
        prior.inv(true),
        prior.root@ == root,
        prior.max_depth == depth,
        prior.tt.entries().len() == prior.tt.index_mask() + 1,
        before.len() == prior.tt.index_mask() + 1,
        root_running(prior),
        root_open(prior.ctx.evaluator, before, prior.tt.index_mask(), root, depth),
        after.same_setup(prior),
        prior.backtrack_outcome(after, status, child_score, child_pv),
        after.reports(prior, status, true),
    ensures
        !(status is Done) ==> root_running(after),
        status matches StepResult::Done { best_score, pv } ==> settles_root(
            prior.ctx.evaluator,
            before,
            prior.tt.index_mask(),
            root,
            depth,
            best_score,
            after.tt.entries(),
        ),
{
    let n = prior.stack@.len() as int;
    if prior.closes_after(child_score) {
        assert(after.stack@ == prior.stack@.drop_last());
        if n == 1 {
            assert(prior.top() == prior.stack@[0]);
            if let StepResult::Done { best_score, pv } = status {
                let searched = prior.tt.entries();
                assert(after.state == root);
                assert(after.tt.entries() == spec_store(
                    searched,
                    prior.tt.index_mask(),
                    root,
                    best_score,
                    depth,
                    spec_bounds_class(best_score, EvaluationScore::Mated(0), EvaluationScore::Mating(0)),
                ));
            }
        } else {
            assert(after.stack@[0] == prior.stack@.drop_last()[0]);
        }
    } else {
        if n == 1 {
            assert(after.top() == after.stack@[0]);
            assert(prior.top() == prior.stack@[0]);
        } else {
            assert(after.stack@.drop_last()[0] == prior.stack@.drop_last()[0]);
        }
    }
}

// ============================================================================
// THE ROOT'S CANDIDATES
// ============================================================================

/// The best of `init` and the candidates' scores, taken in order the way a frame keeps its
/// best score: a later score replaces the best only when it ranks strictly higher.
pub open spec fn best_of(init: EvaluationScore, cands: Seq<ScoredMove>) -> EvaluationScore
    decreases cands.len(),
{
    if cands.len() == 0 {
        init
    } else {
        let b = best_of(init, cands.drop_last());
        if cands.last().score.rank() > b.rank() {
            cands.last().score
        } else {
            b
        }
    }
}

/// No cache entry was searched deeper than `bound`.
pub open spec fn entries_below(entries: Seq<Option<TranspositionEntry>>, bound: int) -> bool {
    forall|i: int| 0 <= i < entries.len() && (#[trigger] entries[i]) is Some ==> entries[i]->Some_0.depth <= bound
}

/// While the root's moves are searched, the candidates recorded so far are its first moves in
/// search order, the root frame's best score is the best of theirs, and the root keeps the
/// full window.
pub open spec fn root_tracks<'a, E: PositionEvaluator, C: CancelSignal, T: SearchTelemetry>(
    m: &NegamaxStateMachine<'a, E, C, T>,
    awaiting: bool,
    root_moves: Seq<Move>,
    cands: Seq<ScoredMove>,
) -> bool {
    let k = m.stack@[0].move_idx as int;
    &&& m.stack@.len() >= 1
    &&& m.stack@[0].legal_moves@ == root_moves
    &&& m.stack@[0].alpha == EvaluationScore::Mated(0)
    &&& m.stack@[0].beta == EvaluationScore::Mating(0)
    &&& m.stack@[0].original_alpha == EvaluationScore::Mated(0)
    &&& cands.len() == if m.stack@.len() == 1 && !awaiting {
        k
    } else {
        k - 1
    }
    &&& forall|i: int| 0 <= i < cands.len() ==> #[trigger] cands[i].current_move == root_moves[i]
    &&& m.stack@[0].max_score == best_of(EvaluationScore::Mated(0), cands)
}

/// A finished search of the root recorded one candidate per root move, in search order, and
/// cached the best of their scores at the root.
pub open spec fn root_finished(
    cands: Seq<ScoredMove>,
    root_moves: Seq<Move>,
    after: Seq<Option<TranspositionEntry>>,
    mask: usize,
    root: GameState,
    depth: usize,
) -> bool {
    let best = best_of(EvaluationScore::Mated(0), cands);
    &&& cands.len() == root_moves.len()
    &&& forall|i: int| 0 <= i < cands.len() ==> #[trigger] cands[i].current_move == root_moves[i]
    &&& exists|searched: Seq<Option<TranspositionEntry>>|
        searched.len() == after.len() && after == spec_store(
            searched,
            mask,
            root,
            best,
            depth,
            spec_bounds_class(best, EvaluationScore::Mated(0), EvaluationScore::Mating(0)),
        )
}

/// A root with moves and plies to search, under a cache holding nothing searched that deep,
/// is settled neither by the cache nor as terminal.
proof fn lemma_root_open<E: PositionEvaluator>(
    evaluator: &E,
    before: Seq<Option<TranspositionEntry>>,
    mask: usize,
    root: GameState,
    depth: usize,
)
    requires
        entries_below(before, depth - 1),
        before.len() == mask + 1,
        depth >= 1,
        capped(legal_moves(root)).len() > 0,
    ensures
        root_open(evaluator, before, mask, root, depth),
{
    crate::tt::lemma_slot_in_range(crate::tt::state_key(root), mask);
    let i = crate::tt::slot_of(crate::tt::state_key(root), mask);
    if before[i] is Some {
        assert(before[i]->Some_0.depth <= depth - 1);
    }
}

/// Storing a result no deeper than `bound` keeps every entry no deeper than `bound`.
proof fn lemma_store_below(
    entries: Seq<Option<TranspositionEntry>>,
    mask: usize,
    s: GameState,
    score: EvaluationScore,
    depth: usize,
    bounds: crate::tt::HashEntryBounds,
    bound: int,
)
    requires
        entries_below(entries, bound),
        depth <= bound,
        entries.len() == mask + 1,
    ensures
        entries_below(spec_store(entries, mask, s, score, depth, bounds), bound),
        spec_store(entries, mask, s, score, depth, bounds).len() == entries.len(),
{
    crate::tt::lemma_slot_in_range(crate::tt::state_key(s), mask);
}

/// A step of a search keeps the root's candidates in step with the root frame and keeps the
/// cache within the search's depth; a step that finishes an uncancelled search of an open
/// root has recorded every root move.
proof fn lemma_step_tracks<'a, E: PositionEvaluator, C: CancelSignal, T: SearchTelemetry>(
    prior: &NegamaxStateMachine<'a, E, C, T>,
    after: &NegamaxStateMachine<'a, E, C, T>,
    status: StepResult,
    root_moves: Seq<Move>,
    cands: Seq<ScoredMove>,
    before: Seq<Option<TranspositionEntry>>,
    root: GameState,
    depth: usize,
    bound: int,
)
    requires
        prior.inv(false),
        prior.root@ == root,
        prior.max_depth == depth,
        prior.tt.entries().len() == prior.tt.index_mask() + 1,
        root_tracks(prior, false, root_moves, cands),
        root_moves.len() == capped(legal_moves(root)).len(),
        prior.stack@[0].move_idx == 0 ==> prior.tt.entries() == before,
        depth <= bound,
        entries_below(prior.tt.entries(), bound),
        after.same_setup(prior),
        (prior.stopped(after, status) && prior.ctx.cancelled.can_cancel()) || prior.step_outcome(after, status),
        after.reports(prior, status, false),
    ensures
        entries_below(after.tt.entries(), bound),
        !(status is Done) ==> root_tracks(after, status is Backtrack, root_moves, cands) && (after.stack@[0].move_idx
            == 0 ==> after.tt.entries() == before),
        status is Done ==> prior.ctx.cancelled.can_cancel() || !root_open(
            prior.ctx.evaluator,
            before,
            prior.tt.index_mask(),
            root,
            depth,
        ) || root_finished(cands, root_moves, after.tt.entries(), prior.tt.index_mask(), root, depth),
{
    let n = prior.stack@.len() as int;
    let mask = prior.tt.index_mask();
    if prior.step_outcome(after, status) {
        if prior.top_cutoff() is None && prior.top_closing() is Some {
            lemma_store_below(
                prior.tt.entries(),
                mask,
                prior.state,
                prior.top_closing()->Some_0,
                prior.top_remaining(),
                spec_bounds_class(prior.top_closing()->Some_0, prior.top().original_alpha, prior.top().beta),
                bound,
            );
        }
        if n == 1 {
            assert(prior.top() == prior.stack@[0]);
            lemma_path_step(prior.root@, prior.stack@, 0);
            assert(prior.state == root);
            assert(prior.top_remaining() == depth);
            assert(frame_ok(prior.stack@[0], path_position(prior.root@, prior.stack@, 0)));
            if status is Done {
                if prior.stack@[0].move_idx >= 1 {
                    let searched = prior.tt.entries();
                    assert(after.tt.entries() == spec_store(
                        searched,
                        mask,
                        root,
                        best_of(EvaluationScore::Mated(0), cands),
                        depth,
                        spec_bounds_class(
                            best_of(EvaluationScore::Mated(0), cands),
                            EvaluationScore::Mated(0),
                            EvaluationScore::Mating(0),
                        ),
                    ));
                }
            } else {
                assert(after.stack@[0] == after.stack@[n - 1]);
            }
        } else {
            if prior.top_cutoff() is None && prior.top_closing() is None {
                assert(after.stack@.take(n - 1)[0] == prior.stack@.take(n - 1)[0]);
            } else {
                assert(after.stack@ == prior.stack@.drop_last());
                assert(after.stack@[0] == prior.stack@.drop_last()[0]);
            }
        }
    }
}

/// Folding a child's result into a search keeps the root's candidates in step with the root
/// frame (a result coming back to the root adds its move with the result turned to the
/// root's side) and keeps the cache within the search's depth; a search it finishes has
/// recorded every root move.
proof fn lemma_backtrack_tracks<'a, E: PositionEvaluator, C: CancelSignal, T: SearchTelemetry>(
    prior: &NegamaxStateMachine<'a, E, C, T>,
    after: &NegamaxStateMachine<'a, E, C, T>,
    status: StepResult,
    child_score: EvaluationScore,
    child_pv: Seq<Move>,
    root_moves: Seq<Move>,
    cands: Seq<ScoredMove>,
    new_cands: Seq<ScoredMove>,
    root: GameState,
    depth: usize,
    bound: int,
)
    requires
        prior.inv(true),
        prior.root@ == root,
        prior.max_depth == depth,
        prior.tt.entries().len() == prior.tt.index_mask() + 1,
        root_tracks(prior, true, root_moves, cands),
        depth <= bound,
        entries_below(prior.tt.entries(), bound),
        new_cands == if prior.stack@.len() == 1 {
            cands.push(
                ScoredMove { current_move: root_moves[cands.len() as int], score: spec_invert_score(child_score) },
            )
        } else {
            cands
        },
        after.same_setup(prior),
        prior.backtrack_outcome(after, status, child_score, child_pv),
        after.reports(prior, status, true),
    ensures
        entries_below(after.tt.entries(), bound),
        !(status is Done) ==> root_tracks(after, status is Backtrack, root_moves, new_cands) && after.stack@[0].move_idx
            >= 1,
        status is Done ==> root_finished(new_cands, root_moves, after.tt.entries(), prior.tt.index_mask(), root, depth),
{
    let n = prior.stack@.len() as int;
    let mask = prior.tt.index_mask();
    let f = prior.top();
    let at = spec_unmake_move(prior.state, crate::negamax::played_move(f));
    let best = prior.best_after(child_score);
    if prior.closes_after(child_score) {
        lemma_store_below(
            prior.tt.entries(),
            mask,
            at,
            best,
            prior.top_remaining(),
            spec_bounds_class(best, f.original_alpha, f.beta),
            bound,
        );
        assert(after.stack@ == prior.stack@.drop_last());
        if n == 1 {
            assert(prior.top() == prior.stack@[0]);
            assert(new_cands.drop_last() =~= cands);
            assert(best_of(EvaluationScore::Mated(0), new_cands) == best);
            assert(frame_ok(prior.stack@[0], path_position(prior.root@, prior.stack@, 0)));
            assert(f.move_idx >= f.legal_moves@.len());
            if let StepResult::Done { best_score, pv } = status {
                let searched = prior.tt.entries();
                assert(after.state == root);
                assert(after.tt.entries() == spec_store(
                    searched,
                    mask,
                    root,
                    best,
                    depth,
                    spec_bounds_class(best, EvaluationScore::Mated(0), EvaluationScore::Mating(0)),
                ));
                assert(searched.len() == after.tt.entries().len());
                assert(new_cands.len() == root_moves.len());
                assert forall|i: int| 0 <= i < new_cands.len() implies #[trigger] new_cands[i].current_move
                    == root_moves[i] by {
                    if i < cands.len() {
                        assert(new_cands[i] == cands[i]);
                    }
                }
            }
        } else {
            assert(after.stack@[0] == prior.stack@.drop_last()[0]);
        }
    } else {
        if n == 1 {
            assert(after.top() == after.stack@[0]);
            assert(prior.top() == prior.stack@[0]);
            assert(new_cands.drop_last() =~= cands);
            assert(best_of(EvaluationScore::Mated(0), new_cands) == best);
        } else {
            assert(after.stack@.drop_last()[0] == prior.stack@.drop_last()[0]);
        }
    }
}

/// Searches to one fixed depth, as self-play does.
pub struct SimulationController<'a, E: PositionEvaluator, C: CancelSignal> {
    pub ctx: &'a SearchContext<'a, E, C>,
    pub target_depth: usize,
}

impl<'a, E: PositionEvaluator, C: CancelSignal> SimulationController<'a, E, C> {
    /// A controller searching `target_depth` plies.
    pub fn new(ctx: &'a SearchContext<'a, E, C>, target_depth: usize) -> (r: Self)
        ensures
            r.ctx == ctx,
            r.target_depth == target_depth,
    {
        SimulationController { ctx, target_depth }
    }

    /// Runs the machine from the position to the end and returns the score it settles the
    /// root with, as `settles_root` describes it, the cache updated on the way; a search that
    /// its signal cancels returns a void zero. Under `machine_premises` the score has the
    /// outcome of the root's node value (a value exactly, a forced result by its side), and
    /// the cache only gains sound results for positions of the tree searched.
    pub fn search(&self, true_state: &GameState, tt: &mut TranspositionTable) -> (r: EvaluationScore)
        requires
            self.ctx.ready(),
            old(tt).wf(),
        ensures
            final(tt).wf(),
            final(tt).index_mask() == old(tt).index_mask(),
            settles_root(
                self.ctx.evaluator,
                old(tt).entries(),
                old(tt).index_mask(),
                *true_state,
                self.target_depth,
                r,
                final(tt).entries(),
            ) || (self.ctx.cancelled.can_cancel() && r == EvaluationScore::Value(0)),
            machine_premises(
                self.ctx.evaluator,
                self.ctx.cancelled.can_cancel(),
                old(tt).entries(),
                old(tt).index_mask(),
                *true_state,
                self.target_depth as nat,
            ) ==> outcome(r) == outcome(node_value(self.ctx.evaluator, *true_state, self.target_depth as nat))
                && table_grows(
                node_values(self.ctx.evaluator),
                old(tt).entries(),
                final(tt).entries(),
                old(tt).index_mask(),
                *true_state,
                self.target_depth as nat,
                false,
            ),
    {
        let telemetry = NoOpTelemetry;
        let mut table = TranspositionTable::with_capacity(0);
        std::mem::swap(&mut table, tt);
        let mut machine = NegamaxStateMachine::new(self.ctx, table, &telemetry, *true_state, self.target_depth);
        let ghost mask = machine.tt.index_mask();
        let ghost before = machine.tt.entries();
        let ghost root = *true_state;
        let ghost depth = self.target_depth;
        let ghost mut started = false;
        let ghost law = machine_premises(
            self.ctx.evaluator,
            self.ctx.cancelled.can_cancel(),
            before,
            mask,
            root,
            depth as nat,
        );
        let ghost mut opened = seq![before];
        proof {
            machine.tt.lemma_wf_len();
            if law {
                lemma_run_start(&machine, before);
            }
        }
        let mut status = StepResult::Deepen;
        let mut total_score = EvaluationScore::Value(0);
        loop
            invariant
                machine.tt.index_mask() == mask,
                machine_ready(&machine, status),
                machine.ctx == self.ctx,
                machine.root@ == root,
                machine.max_depth == depth,
                before.len() == mask + 1,
                !started ==> status is Deepen || status is Done,
                !started && status is Deepen ==> root_fresh(&machine, before, root),
                started && !(status is Done) ==> root_running(&machine),
                started ==> root_open(self.ctx.evaluator, before, mask, root, depth),
                status matches StepResult::Done { best_score, pv } ==> settles_root(
                    self.ctx.evaluator,
                    before,
                    mask,
                    root,
                    depth,
                    best_score,
                    machine.tt.entries(),
                ) || (self.ctx.cancelled.can_cancel() && best_score == EvaluationScore::Value(0)),
                law == machine_premises(
                    self.ctx.evaluator,
                    self.ctx.cancelled.can_cancel(),
                    before,
                    mask,
                    root,
                    depth as nat,
                ),
                law ==> run_law(&machine, status, opened, before, root, depth),
            ensures
                machine.tt.wf(),
                machine.tt.index_mask() == mask,
                settles_root(self.ctx.evaluator, before, mask, root, depth, total_score, machine.tt.entries())
                    || (self.ctx.cancelled.can_cancel() && total_score == EvaluationScore::Value(0)),
                law ==> outcome(total_score) == outcome(node_value(self.ctx.evaluator, root, depth as nat))
                    && table_grows(node_values(self.ctx.evaluator), before, machine.tt.entries(), mask, root, depth as nat, false),
            decreases machine_work(&machine, status),
        {
            match status {
                StepResult::Deepen => {
                    proof {
                        machine.lemma_work_positive(false);
                        machine.tt.lemma_wf_len();
                    }
                    let ghost prior = machine;
                    status = machine.step();
                    proof {
                        if law {
                            opened = lemma_run_step(&prior, &machine, status, opened, before);
                        }
                        lemma_step_keeps_root(&prior, &machine, status, started, before, root, depth);
                        if !started && status is Deepen {
                            started = true;
                        }
                    }
                },
                StepResult::Backtrack { score, pv } => {
                    proof {
                        machine.lemma_work_positive(true);
                        machine.tt.lemma_wf_len();
                    }
                    let ghost prior = machine;
                    let ghost child_pv = pv@;
                    let ghost pv_held = pv;
                    status = machine.handle_backtrack(score, pv);
                    proof {
                        if law {
                            opened = lemma_run_backtrack(&prior, &machine, status, score, child_pv, pv_held, opened, before);
                        }
                        lemma_backtrack_keeps_root(&prior, &machine, status, score, pv@, before, root, depth);
                    }
                },
                StepResult::Done { best_score, pv: done_pv } => {
                    proof {
                        if law {
                            lemma_run_done(&machine, best_score, done_pv, opened, before, root, depth);
                        }
                    }
                    total_score = best_score;
                    break;
                },
            }
        }
        *tt = machine.into_table();
        total_score
    }

    /// Runs the machine from the position to the end and collects the root moves with the
    /// scores their subtrees returned, turned to the root's side, in the order they were
    /// searched. The root keeps its full window, so nothing is cut there: when neither the
    /// cache nor the position settles the root, and the search is not cancelled, every root
    /// move is recorded once, in search order, and the best of their scores is cached at the
    /// root. Under `machine_premises` every candidate's score has the outcome of its move's
    /// node value, turned to the root's side.
    pub fn search_candidates(&self, true_state: &GameState, tt: &mut TranspositionTable) -> (r: SearchProgress)
        requires
            self.ctx.ready(),
            old(tt).wf(),
        ensures
            final(tt).wf(),
            final(tt).index_mask() == old(tt).index_mask(),
            candidates_legal(*true_state, r.candidates@),
            r.depth_reached == self.target_depth,
            r.nodes_explored == 0,
            r.pv@.len() == 0,
            !self.ctx.cancelled.can_cancel() && root_open(
                self.ctx.evaluator,
                old(tt).entries(),
                old(tt).index_mask(),
                *true_state,
                self.target_depth,
            ) ==> exists|root_moves: Seq<Move>|
                is_move_order(self.ctx.luts, *true_state, self.target_depth as int, root_moves) && root_finished(
                    r.candidates@,
                    root_moves,
                    final(tt).entries(),
                    old(tt).index_mask(),
                    *true_state,
                    self.target_depth,
                ),
            machine_premises(
                self.ctx.evaluator,
                self.ctx.cancelled.can_cancel(),
                old(tt).entries(),
                old(tt).index_mask(),
                *true_state,
                self.target_depth as nat,
            ) ==> candidates_valued(self.ctx.evaluator, *true_state, self.target_depth, r.candidates@),
    {
        let telemetry = NoOpTelemetry;
        let mut table = TranspositionTable::with_capacity(0);
        std::mem::swap(&mut table, tt);
        let mut machine = NegamaxStateMachine::new(self.ctx, table, &telemetry, *true_state, self.target_depth);
        let ghost mask = machine.tt.index_mask();
        let ghost before = machine.tt.entries();
        let ghost root = *true_state;
        let ghost depth = self.target_depth;
        let ghost root_moves = machine.stack@[0].legal_moves@;
        let ghost law = machine_premises(
            self.ctx.evaluator,
            self.ctx.cancelled.can_cancel(),
            before,
            mask,
            root,
            depth as nat,
        );
        let ghost mut opened = seq![before];
        proof {
            machine.tt.lemma_wf_len();
            if law {
                lemma_run_start(&machine, before);
            }
        }
        let mut candidates: Vec<ScoredMove> = Vec::new();
        let mut status = StepResult::Deepen;
        loop
            invariant
                machine.tt.index_mask() == mask,
                machine.root@ == root,
                machine.ctx == self.ctx,
                machine.max_depth == depth,
                root == *true_state,
                before.len() == mask + 1,
                is_move_order(self.ctx.luts, root, depth as int, root_moves),
                machine_ready(&machine, status),
                candidates_legal(*true_state, candidates@),
                entries_below(machine.tt.entries(), usize::MAX as int),
                !(status is Done) ==> root_tracks(&machine, status is Backtrack, root_moves, candidates@) && (
                machine.stack@[0].move_idx == 0 ==> machine.tt.entries() == before),
                status is Done ==> self.ctx.cancelled.can_cancel() || !root_open(
                    self.ctx.evaluator,
                    before,
                    mask,
                    root,
                    depth,
                ) || root_finished(candidates@, root_moves, machine.tt.entries(), mask, root, depth),
                law == machine_premises(
                    self.ctx.evaluator,
                    self.ctx.cancelled.can_cancel(),
                    before,
                    mask,
                    root,
                    depth as nat,
                ),
                law ==> !(status is Done) ==> run_law(&machine, status, opened, before, root, depth),
                law ==> candidates_valued(self.ctx.evaluator, root, depth, candidates@),
            ensures
                machine.tt.wf(),
                machine.tt.index_mask() == mask,
                candidates_legal(*true_state, candidates@),
                law ==> candidates_valued(self.ctx.evaluator, root, depth, candidates@),
                self.ctx.cancelled.can_cancel() || !root_open(self.ctx.evaluator, before, mask, root, depth)
                    || root_finished(candidates@, root_moves, machine.tt.entries(), mask, root, depth),
            decreases machine_work(&machine, status),
        {
            match status {
                StepResult::Deepen => {
                    proof {
                        machine.lemma_work_positive(false);
                        machine.tt.lemma_wf_len();
                    }
                    let ghost prior = machine;
                    status = machine.step();
                    proof {
                        if law {
                            opened = lemma_run_step(&prior, &machine, status, opened, before);
                        }
                        lemma_step_tracks(
                            &prior,
                            &machine,
                            status,
                            root_moves,
                            candidates@,
                            before,
                            root,
                            depth,
                            usize::MAX as int,
                        );
                    }
                },
                StepResult::Backtrack { score, pv } => {
                    proof {
                        machine.lemma_work_positive(true);
                        machine.tt.lemma_wf_len();
                    }
                    let ghost prior = machine;
                    let ghost old_cands = candidates@;
                    if machine.stack.len() == 1 {
                        let explored_idx = machine.stack[0].move_idx - 1;
                        let target_move = machine.stack[0].legal_moves.get(explored_idx);
                        proof {
                            lemma_root_move_legal(&machine, explored_idx as int);
                        }
                        proof {
                            if law {
                                lemma_run_root_child(&machine, score, pv, opened, before);
                            }
                        }
                        candidates.push(ScoredMove { current_move: target_move, score: invert_score(score) });
                        proof {
                            if law {
                                assert forall|i: int| 0 <= i < candidates@.len() implies outcome(
                                    (#[trigger] candidates@[i]).score,
                                ) == outcome(
                                    spec_invert_score(
                                        node_value(
                                            self.ctx.evaluator,
                                            spec_make_move(root, candidates@[i].current_move),
                                            (depth - 1) as nat,
                                        ),
                                    ),
                                ) by {
                                    if i < old_cands.len() {
                                        assert(candidates@[i] == old_cands[i]);
                                    }
                                }
                            }
                        }
                    }
                    let ghost child_pv = pv@;
                    let ghost pv_held = pv;
                    status = machine.handle_backtrack(score, pv);
                    proof {
                        if law {
                            opened = lemma_run_backtrack(&prior, &machine, status, score, child_pv, pv_held, opened, before);
                        }
                        lemma_backtrack_tracks(
                            &prior,
                            &machine,
                            status,
                            score,
                            child_pv,
                            root_moves,
                            old_cands,
                            candidates@,
                            root,
                            depth,
                            usize::MAX as int,
                        );
                    }
                },
                StepResult::Done { .. } => {
                    break;
                },
            }
        }
        *tt = machine.into_table();
        SearchProgress { candidates, depth_reached: self.target_depth, nodes_explored: 0, pv: Vec::new() }
    }
}

// ============================================================================
// ITERATIVE DEEPENING
// ============================================================================

/// A progress report as plain values: the scored moves, the depth reached, the nodes
/// visited and the principal line.
pub type ProgressReport = (Seq<ScoredMove>, usize, usize, Seq<Move>);

impl SearchProgress {
    /// What the progress reports.
    pub open spec fn report(&self) -> ProgressReport {
        (self.candidates@, self.depth_reached, self.nodes_explored, self.pv@)
    }
}

/// Where an iterative deepening search publishes its progress while it runs.
pub trait ProgressSink {
    /// The reports published so far, oldest first.
    spec fn published(&self) -> Seq<ProgressReport>;

    /// Publishes the progress of a search of `root`; every candidate published is a legal
    /// move of `root`. The report joins those published before.
    fn publish(&mut self, root: &GameState, progress: SearchProgress)
        requires
            candidates_legal(*root, progress.candidates@),
        ensures
            final(self).published() == old(self).published().push(progress.report()),
    ;
}

/// A sink that keeps every progress report it is handed, in order.
pub struct ProgressLog {
    pub reports: Vec<SearchProgress>,
}

impl ProgressLog {
    /// A log with no report yet.
    pub fn new() -> (r: Self)
        ensures
            r.published().len() == 0,
    {
        ProgressLog { reports: Vec::new() }
    }
}

impl ProgressSink for ProgressLog {
    open spec fn published(&self) -> Seq<ProgressReport> {
        self.reports@.map_values(|p: SearchProgress| p.report())
    }

    fn publish(&mut self, root: &GameState, progress: SearchProgress) {
        let ghost before = self.reports@;
        self.reports.push(progress);
        proof {
            assert(self.reports@.map_values(|p: SearchProgress| p.report()) =~= before.map_values(
                |p: SearchProgress| p.report(),
            ).push(progress.report()));
        }
    }
}

/// A channel that hands progress reports on, such as to another thread.
pub trait ProgressChannel {
    /// Hands on the progress of a search of `root`, whose candidates are legal moves of
    /// `root`.
    fn send(&self, root: &GameState, progress: SearchProgress)
        requires
            candidates_legal(*root, progress.candidates@),
    ;
}

/// A sink that hands every report on through a channel and keeps, as ghost state, the
/// reports it handed on.
pub struct Published<H: ProgressChannel> {
    pub channel: H,
    pub log: Ghost<Seq<ProgressReport>>,
}

impl<H: ProgressChannel> Published<H> {
    /// A sink over `channel` that has handed nothing on yet.
    pub fn new(channel: H) -> (r: Self)
        ensures
            r.channel == channel,
            r.published().len() == 0,
    {
        Published { channel, log: Ghost(Seq::empty()) }
    }
}

impl<H: ProgressChannel> ProgressSink for Published<H> {
    open spec fn published(&self) -> Seq<ProgressReport> {
        self.log@
    }

    fn publish(&mut self, root: &GameState, progress: SearchProgress) {
        let ghost report = progress.report();
        self.channel.send(root, progress);
        self.log = Ghost(self.log@.push(report));
    }
}

/// What the search publishes first: every legal move of `root` (as many as a list holds), in
/// generation order, with the lowest value, at depth 0, no node counted and no principal line.
pub open spec fn opening_report(root: GameState) -> ProgressReport {
    (
        capped(legal_moves(root)).map_values(
            |m: Move| ScoredMove { current_move: m, score: EvaluationScore::Value(i32::MIN) },
        ),
        0,
        0,
        Seq::empty(),
    )
}

/// The report of a layer finished `depth` plies deep: that depth, no principal line, and
/// legal moves of `root`; at one ply or more, when nothing can cancel and the root has moves,
/// one candidate per root move in that layer's search order, and under the search law
/// (`law`) each scored with the outcome of its move's node value turned to the root's side.
pub open spec fn layer_report<'a, E: PositionEvaluator, C: CancelSignal>(
    ctx: &SearchContext<'a, E, C>,
    root: GameState,
    depth: usize,
    law: bool,
    rep: ProgressReport,
) -> bool {
    &&& rep.1 == depth
    &&& rep.3.len() == 0
    &&& candidates_legal(root, rep.0)
    &&& !ctx.cancelled.can_cancel() && capped(legal_moves(root)).len() > 0 && depth >= 1 ==> exists|
        root_moves: Seq<Move>|
        is_move_order(ctx.luts, root, depth as int, root_moves) && rep.0.len() == root_moves.len() && forall|
            i: int,
        |
            0 <= i < root_moves.len() ==> #[trigger] rep.0[i].current_move == root_moves[i]
    &&& law && depth >= 1 ==> candidates_valued(ctx.evaluator, root, depth, rep.0)
}

/// The premises under which the iterative search's scores stand for node values: nothing can
/// cancel it, the evaluator reports no forced result but a loss now, the deepest layer is at
/// most 2^30 plies, and its tree holds no position twice under one key at different plies.
pub open spec fn search_law<'a, E: PositionEvaluator, C: CancelSignal>(
    ctx: &SearchContext<'a, E, C>,
    root: GameState,
    max_depth: usize,
) -> bool {
    &&& !ctx.cancelled.can_cancel()
    &&& plain_leaves(ctx.evaluator)
    &&& max_depth <= 0x4000_0000
    &&& keys_apart(root, max_depth as nat)
}

/// What an iterative search of `root` over `min_depth ..= max_depth` publishes on top of
/// `before`, ending with the sink at `after` and returning `r`: the opening report, then one
/// report per finished layer at depths `min_depth`, `min_depth + 1`, ..., and `r` reports the
/// last of them. When nothing can cancel it: with no root move it publishes the opening report
/// alone; with root moves and `min_depth <= max_depth`, one layer per depth up to `max_depth`.
pub open spec fn search_published<'a, E: PositionEvaluator, C: CancelSignal>(
    ctx: &SearchContext<'a, E, C>,
    root: GameState,
    min_depth: usize,
    max_depth: usize,
    before: Seq<ProgressReport>,
    after: Seq<ProgressReport>,
    r: SearchProgress,
) -> bool {
    let pubs = after.skip(before.len() as int);
    &&& after.len() > before.len()
    &&& after.take(before.len() as int) == before
    &&& pubs[0] == opening_report(root)
    &&& forall|i: int|
        1 <= i < pubs.len() ==> #[trigger] layer_report(
            ctx,
            root,
            (min_depth + i - 1) as usize,
            search_law(ctx, root, max_depth),
            pubs[i],
        ) && min_depth + i - 1 <= max_depth
    &&& r.report() == pubs.last()
    &&& !ctx.cancelled.can_cancel() && capped(legal_moves(root)).len() == 0 ==> pubs.len() == 1
    &&& !ctx.cancelled.can_cancel() && capped(legal_moves(root)).len() > 0 && min_depth <= max_depth ==> pubs.len()
        == max_depth - min_depth + 2
}

/// The reports published on top of `before`, the opening one and then one per finished
/// layer, make up what `search_published` says.
proof fn lemma_published_tail<'a, E: PositionEvaluator, C: CancelSignal>(
    ctx: &SearchContext<'a, E, C>,
    root: GameState,
    min_depth: usize,
    max_depth: usize,
    before: Seq<ProgressReport>,
    pubs: Seq<ProgressReport>,
    after: Seq<ProgressReport>,
    r: SearchProgress,
)
    requires
        after == before + pubs,
        pubs.len() >= 1,
        pubs[0] == opening_report(root),
        forall|i: int|
            1 <= i < pubs.len() ==> #[trigger] layer_report(
                ctx,
                root,
                (min_depth + i - 1) as usize,
                search_law(ctx, root, max_depth),
                pubs[i],
            ) && min_depth + i - 1 <= max_depth,
        pubs.last() == r.report(),
        !ctx.cancelled.can_cancel() && capped(legal_moves(root)).len() == 0 ==> pubs.len() == 1,
        !ctx.cancelled.can_cancel() && capped(legal_moves(root)).len() > 0 && min_depth <= max_depth ==> pubs.len()
            == max_depth - min_depth + 2,
    ensures
        search_published(ctx, root, min_depth, max_depth, before, after, r),
{
    assert(after.skip(before.len() as int) =~= pubs);
    assert(after.take(before.len() as int) =~= before);
}

/// Searches one depth after the other, publishing each finished layer, until the deepest
/// depth is done or the search is cancelled.
pub struct IterativeDeepeningController<'a, E: PositionEvaluator, C: CancelSignal, P: ProgressSink> {
    pub ctx: &'a SearchContext<'a, E, C>,
    pub min_depth: usize,
    pub max_depth: usize,
    pub shared_progress: P,
}

/// The outcome of searching one layer.
pub enum LayerOutcome {
    /// The root has no legal move: there is nothing to search.
    NoMoves,
    /// The cancel signal came before the layer finished.
    Cancelled,
    /// The layer finished; its root moves with their scores.
    Finished(Vec<ScoredMove>),
}

impl<'a, E: PositionEvaluator, C: CancelSignal, P: ProgressSink> IterativeDeepeningController<'a, E, C, P> {
    /// A controller for depths `min_depth ..= max_depth`.
    pub fn new(ctx: &'a SearchContext<'a, E, C>, min_depth: usize, max_depth: usize, shared_progress: P) -> (r:
        Self)
        ensures
            r.ctx == ctx,
            r.min_depth == min_depth,
            r.max_depth == max_depth,
            r.shared_progress == shared_progress,
    {
        IterativeDeepeningController { ctx, min_depth, max_depth, shared_progress }
    }

    /// Searches one layer to `depth` plies with the cache `tt`, and counts the steps taken on
    /// top of `nodes`. Root moves are recorded with the score their subtree returned, turned
    /// to the root's side. When the cache holds nothing searched as deep as this layer and the
    /// search is not cancelled, a root with moves finishes with every root move recorded once,
    /// in search order; the cache then holds nothing deeper than this layer. Under
    /// `machine_premises` every recorded score has the outcome of its move's node value, turned
    /// to the root's side, and the cache only gains sound results for the layer's tree.
    pub fn search_layer<T: SearchTelemetry>(
        &self,
        tt: TranspositionTable,
        telemetry: &T,
        true_state: &GameState,
        depth: usize,
        nodes: usize,
    ) -> (r: (LayerOutcome, TranspositionTable, usize))
        requires
            self.ctx.ready(),
            tt.wf(),
        ensures
            r.1.wf(),
            r.1.index_mask() == tt.index_mask(),
            r.0 matches LayerOutcome::Finished(c) ==> candidates_legal(*true_state, c@),
            (r.0 is NoMoves) == (capped(legal_moves(*true_state)).len() == 0),
            entries_below(tt.entries(), depth as int) ==> entries_below(r.1.entries(), depth as int),
            !self.ctx.cancelled.can_cancel() ==> !(r.0 is Cancelled),
            r.0 matches LayerOutcome::Finished(c) ==> (!self.ctx.cancelled.can_cancel() && depth >= 1
                && entries_below(tt.entries(), depth - 1) ==> exists|root_moves: Seq<Move>|
                is_move_order(self.ctx.luts, *true_state, depth as int, root_moves) && root_finished(
                    c@,
                    root_moves,
                    r.1.entries(),
                    tt.index_mask(),
                    *true_state,
                    depth,
                )),
            r.0 matches LayerOutcome::Finished(c) ==> (machine_premises(
                self.ctx.evaluator,
                self.ctx.cancelled.can_cancel(),
                tt.entries(),
                tt.index_mask(),
                *true_state,
                depth as nat,
            ) ==> candidates_valued(self.ctx.evaluator, *true_state, depth, c@) && table_grows(
                node_values(self.ctx.evaluator),
                tt.entries(),
                r.1.entries(),
                tt.index_mask(),
                *true_state,
                depth as nat,
                false,
            )),
    {
        let ghost before = tt.entries();
        let ghost bound: int = if entries_below(tt.entries(), depth as int) {
            depth as int
        } else {
            usize::MAX as int
        };
        let mut machine = NegamaxStateMachine::new(self.ctx, tt, telemetry, *true_state, depth);
        let ghost mask = machine.tt.index_mask();
        let ghost root = *true_state;
        let ghost root_moves = machine.stack@[0].legal_moves@;
        let ghost law = machine_premises(
            self.ctx.evaluator,
            self.ctx.cancelled.can_cancel(),
            before,
            mask,
            root,
            depth as nat,
        );
        let ghost mut opened = seq![before];
        proof {
            machine.tt.lemma_wf_len();
            if law {
                lemma_run_start(&machine, before);
            }
        }
        let root_moves_count = machine.stack[0].legal_moves.len();
        if root_moves_count == 0 {
            return (LayerOutcome::NoMoves, machine.into_table(), nodes);
        }
        let mut layer_candidates: Vec<ScoredMove> = Vec::new();
        let mut status = StepResult::Deepen;
        let mut steps = nodes;
        loop
            invariant
                self.ctx.ready(),
                machine.tt.index_mask() == mask,
                machine.root@ == root,
                machine.ctx == self.ctx,
                machine.max_depth == depth,
                root == *true_state,
                before.len() == mask + 1,
                depth <= bound,
                is_move_order(self.ctx.luts, root, depth as int, root_moves),
                machine_ready(&machine, status),
                candidates_legal(*true_state, layer_candidates@),
                entries_below(machine.tt.entries(), bound),
                !(status is Done) ==> root_tracks(&machine, status is Backtrack, root_moves, layer_candidates@) && (
                machine.stack@[0].move_idx == 0 ==> machine.tt.entries() == before),
                status is Done ==> self.ctx.cancelled.can_cancel() || !root_open(
                    self.ctx.evaluator,
                    before,
                    mask,
                    root,
                    depth,
                ) || root_finished(layer_candidates@, root_moves, machine.tt.entries(), mask, root, depth),
                law == machine_premises(
                    self.ctx.evaluator,
                    self.ctx.cancelled.can_cancel(),
                    before,
                    mask,
                    root,
                    depth as nat,
                ),
                law ==> run_law(&machine, status, opened, before, root, depth),
                law ==> candidates_valued(self.ctx.evaluator, root, depth, layer_candidates@),
            ensures
                machine.tt.wf(),
                machine.tt.index_mask() == mask,
                candidates_legal(*true_state, layer_candidates@),
                law ==> candidates_valued(self.ctx.evaluator, root, depth, layer_candidates@),
                law ==> table_grows(node_values(self.ctx.evaluator), before, machine.tt.entries(), mask, root, depth as nat, false),
                entries_below(machine.tt.entries(), bound),
                self.ctx.cancelled.can_cancel() || !root_open(self.ctx.evaluator, before, mask, root, depth)
                    || root_finished(layer_candidates@, root_moves, machine.tt.entries(), mask, root, depth),
            decreases machine_work(&machine, status),
        {
            if self.ctx.cancelled.is_cancelled() {
                proof {
                    if !(status is Done) {
                        machine.lemma_work_positive(status is Backtrack);
                    }
                }
                break;
            }
            match status {
                StepResult::Deepen => {
                    proof {
                        machine.lemma_work_positive(false);
                        machine.tt.lemma_wf_len();
                    }
                    steps = steps.wrapping_add(1);
                    let ghost prior = machine;
                    status = machine.step();
                    proof {
                        if law {
                            opened = lemma_run_step(&prior, &machine, status, opened, before);
                        }
                        lemma_step_tracks(
                            &prior,
                            &machine,
                            status,
                            root_moves,
                            layer_candidates@,
                            before,
                            root,
                            depth,
                            bound,
                        );
                    }
                },
                StepResult::Backtrack { score, pv } => {
                    proof {
                        machine.lemma_work_positive(true);
                        machine.tt.lemma_wf_len();
                    }
                    let ghost prior = machine;
                    let ghost old_cands = layer_candidates@;
                    if machine.stack.len() == 1 {
                        let explored_idx = machine.stack[0].move_idx - 1;
                        let target_move = machine.stack[0].legal_moves.get(explored_idx);
                        proof {
                            lemma_root_move_legal(&machine, explored_idx as int);
                        }
                        proof {
                            if law {
                                lemma_run_root_child(&machine, score, pv, opened, before);
                            }
                        }
                        layer_candidates.push(ScoredMove { current_move: target_move, score: invert_score(score) });
                        proof {
                            if law {
                                assert forall|i: int| 0 <= i < layer_candidates@.len() implies outcome(
                                    (#[trigger] layer_candidates@[i]).score,
                                ) == outcome(
                                    spec_invert_score(
                                        node_value(
                                            self.ctx.evaluator,
                                            spec_make_move(root, layer_candidates@[i].current_move),
                                            (depth - 1) as nat,
                                        ),
                                    ),
                                ) by {
                                    if i < old_cands.len() {
                                        assert(layer_candidates@[i] == old_cands[i]);
                                    }
                                }
                            }
                        }
                    }
                    let ghost child_pv = pv@;
                    let ghost pv_held = pv;
                    status = machine.handle_backtrack(score, pv);
                    proof {
                        if law {
                            opened = lemma_run_backtrack(&prior, &machine, status, score, child_pv, pv_held, opened, before);
                        }
                        lemma_backtrack_tracks(
                            &prior,
                            &machine,
                            status,
                            score,
                            child_pv,
                            root_moves,
                            old_cands,
                            layer_candidates@,
                            root,
                            depth,
                            bound,
                        );
                    }
                },
                StepResult::Done { best_score, pv: done_pv } => {
                    proof {
                        if law {
                            lemma_run_done(&machine, best_score, done_pv, opened, before, root, depth);
                        }
                    }
                    break;
                },
            }
        }
        proof {
            if !self.ctx.cancelled.can_cancel() && depth >= 1 && entries_below(before, depth - 1) {
                lemma_root_open(self.ctx.evaluator, before, mask, root, depth);
            }
        }
        proof {
            if law {
                assert(table_grows(node_values(self.ctx.evaluator), before, machine.tt.entries(), mask, root, depth as nat, false));
                assert(candidates_valued(self.ctx.evaluator, root, depth, layer_candidates@));
            }
        }
        let table = machine.into_table();
        if self.ctx.cancelled.is_cancelled() {
            (LayerOutcome::Cancelled, table, steps)
        } else {
            (LayerOutcome::Finished(layer_candidates), table, steps)
        }
    }

    /// Drives the search through the depths: first publishes every legal move with the
    /// lowest value, then after each finished layer its scored moves, that depth and the
    /// nodes visited so far. Stops when cancelled, when the root has no move, or after the
    /// deepest layer, and returns the last progress it published; what it hands its sink is
    /// stated by `search_published`. Uncancelled, a root without
    /// moves ends at depth 0 with no candidate; a root with moves ends at the deepest layer
    /// with one candidate per root move, in that layer's search order, each scored with the
    /// outcome of its move's node value turned to the root's side, when the evaluator reports
    /// no forced result but a loss now and the tree holds no position twice under one key at
    /// different plies.
    #[verifier::spinoff_prover]
    pub fn search(&mut self, true_state: &GameState) -> (r: SearchProgress)
        requires
            old(self).ctx.ready(),
        ensures
            final(self).ctx == old(self).ctx,
            final(self).min_depth == old(self).min_depth,
            final(self).max_depth == old(self).max_depth,
            search_published(
                old(self).ctx,
                *true_state,
                old(self).min_depth,
                old(self).max_depth,
                old(self).shared_progress.published(),
                final(self).shared_progress.published(),
                r,
            ),
            r.pv@.len() == 0,
            candidates_legal(*true_state, r.candidates@),
            !old(self).ctx.cancelled.can_cancel() && capped(legal_moves(*true_state)).len() == 0 ==> r.candidates@.len()
                == 0 && r.depth_reached == 0,
            !old(self).ctx.cancelled.can_cancel() && capped(legal_moves(*true_state)).len() > 0 && old(self).min_depth
                <= old(self).max_depth && old(self).max_depth >= 1 ==> r.depth_reached == old(self).max_depth && exists|
                root_moves: Seq<Move>|
                is_move_order(old(self).ctx.luts, *true_state, old(self).max_depth as int, root_moves) && r.candidates@.len()
                    == root_moves.len() && forall|i: int|
                    0 <= i < root_moves.len() ==> #[trigger] r.candidates@[i].current_move == root_moves[i],
            search_law(old(self).ctx, *true_state, old(self).max_depth) && capped(legal_moves(*true_state)).len() > 0
                && old(self).min_depth <= old(self).max_depth && old(self).max_depth >= 1 ==> candidates_valued(
                old(self).ctx.evaluator,
                *true_state,
                old(self).max_depth,
                r.candidates@,
            ),
    {
        let mut tt = TranspositionTable::with_capacity(20);
        let telemetry = NoOpTelemetry;
        let initial_moves = true_state.generate_legal_moves();
        let mut fallback: Vec<ScoredMove> = Vec::new();
        let mut i: usize = 0;
        proof {
            lemma_listed_moves_legal(*true_state, initial_moves@);
        }
        while i < initial_moves.len()
            invariant
                i <= initial_moves@.len(),
                fallback@.len() == i,
                forall|k: int| 0 <= k < initial_moves@.len() ==> is_legal_move(*true_state, #[trigger] initial_moves@[k]),
                forall|k: int| 0 <= k < i ==> #[trigger] fallback@[k] == (ScoredMove {
                    current_move: initial_moves@[k],
                    score: EvaluationScore::Value(i32::MIN),
                }),
            decreases initial_moves@.len() - i,
        {
            fallback.push(ScoredMove { current_move: initial_moves.get(i), score: EvaluationScore::Value(i32::MIN) });
            i = i + 1;
        }
        assert(candidates_legal(*true_state, fallback@)) by {
            assert forall|k: int| 0 <= k < fallback@.len() implies is_legal_move(*true_state, #[trigger] fallback@[k].current_move) by {
                assert(fallback@[k].current_move == initial_moves@[k]);
            }
        }
        let ghost root = *true_state;
        let ghost pub0 = self.shared_progress.published();
        let ghost ctx0 = self.ctx;
        proof {
            assert(fallback@ =~= opening_report(root).0);
        }
        let mut last = SearchProgress { candidates: copy_candidates(&fallback), depth_reached: 0, nodes_explored: 0, pv: Vec::new() };
        self.shared_progress.publish(
            true_state,
            SearchProgress { candidates: fallback, depth_reached: 0, nodes_explored: 0, pv: Vec::new() },
        );
        let ghost mut pubs: Seq<ProgressReport> = seq![last.report()];
        proof {
            assert(self.shared_progress.published() =~= pub0 + pubs);
        }
        let mut nodes: usize = 0;
        let mut current_depth = self.min_depth;
        let ghost has_moves = capped(legal_moves(root)).len() > 0;
        let ghost calm = !self.ctx.cancelled.can_cancel();
        let ghost law = search_law(self.ctx, root, self.max_depth);
        proof {
            tt.lemma_wf_len();
            lemma_empty_table_covers(node_values(self.ctx.evaluator), tt.entries(), tt.index_mask(), root, self.min_depth as nat);
        }
        while current_depth <= self.max_depth
            invariant_except_break
                entries_below(tt.entries(), current_depth - 1),
                calm && has_moves && current_depth > self.min_depth ==> last.depth_reached == current_depth - 1,
                law ==> table_covers(node_values(self.ctx.evaluator), tt.entries(), tt.index_mask(), root, current_depth as nat),
                pubs.len() == current_depth - self.min_depth + 1,
            invariant
                self.ctx == ctx0,
                self.min_depth == old(self).min_depth,
                self.max_depth == old(self).max_depth,
                self.shared_progress.published() == pub0 + pubs,
                pubs.len() >= 1,
                pubs[0] == opening_report(root),
                forall|i: int|
                    1 <= i < pubs.len() ==> #[trigger] layer_report(
                        self.ctx,
                        root,
                        (self.min_depth + i - 1) as usize,
                        search_law(self.ctx, root, self.max_depth),
                        pubs[i],
                    ) && self.min_depth + i - 1 <= self.max_depth,
                pubs.last() == last.report(),
                calm && !has_moves ==> current_depth == self.min_depth,
                last.pv@.len() == 0,
                self.ctx.ready(),
                tt.wf(),
                root == *true_state,
                has_moves == (capped(legal_moves(root)).len() > 0),
                calm == !self.ctx.cancelled.can_cancel(),
                law == search_law(self.ctx, root, self.max_depth),
                law && last.depth_reached >= 1 ==> candidates_valued(self.ctx.evaluator, root, last.depth_reached, last.candidates@),
                self.min_depth <= current_depth,
                current_depth <= self.max_depth || current_depth == self.min_depth,
                candidates_legal(root, last.candidates@),
                calm && !has_moves ==> last.candidates@.len() == 0 && last.depth_reached == 0,
                calm && has_moves && last.depth_reached >= 1 ==> exists|root_moves: Seq<Move>|
                    is_move_order(self.ctx.luts, root, last.depth_reached as int, root_moves) && last.candidates@.len()
                        == root_moves.len() && forall|i: int|
                        0 <= i < root_moves.len() ==> #[trigger] last.candidates@[i].current_move == root_moves[i],
            ensures
                self.ctx == ctx0,
                self.min_depth == old(self).min_depth,
                self.max_depth == old(self).max_depth,
                self.shared_progress.published() == pub0 + pubs,
                pubs.len() >= 1,
                pubs[0] == opening_report(root),
                forall|i: int|
                    1 <= i < pubs.len() ==> #[trigger] layer_report(
                        self.ctx,
                        root,
                        (self.min_depth + i - 1) as usize,
                        search_law(self.ctx, root, self.max_depth),
                        pubs[i],
                    ) && self.min_depth + i - 1 <= self.max_depth,
                pubs.last() == last.report(),
                calm && !has_moves ==> pubs.len() == 1,
                calm && has_moves && self.min_depth <= self.max_depth ==> pubs.len() == self.max_depth - self.min_depth + 2,
                last.pv@.len() == 0,
                candidates_legal(root, last.candidates@),
                calm && !has_moves ==> last.candidates@.len() == 0 && last.depth_reached == 0,
                calm && has_moves && self.min_depth <= self.max_depth && self.max_depth >= 1 ==> last.depth_reached
                    == self.max_depth,
                calm && has_moves && last.depth_reached >= 1 ==> exists|root_moves: Seq<Move>|
                    is_move_order(self.ctx.luts, root, last.depth_reached as int, root_moves) && last.candidates@.len()
                        == root_moves.len() && forall|i: int|
                        0 <= i < root_moves.len() ==> #[trigger] last.candidates@[i].current_move == root_moves[i],
                law && last.depth_reached >= 1 ==> candidates_valued(self.ctx.evaluator, root, last.depth_reached, last.candidates@),
            decreases self.max_depth - current_depth,
        {
            if self.ctx.cancelled.is_cancelled() {
                break;
            }
            let ghost before_layer = tt.entries();
            let ghost layer_mask = tt.index_mask();
            proof {
                if law {
                    lemma_keys_apart_shallower(root, self.max_depth as nat, current_depth as nat);
                    lemma_covers_fits(node_values(self.ctx.evaluator), tt.entries(), tt.index_mask(), root, current_depth as nat);
                }
            }
            let (outcome, table, total) = self.search_layer(tt, &telemetry, true_state, current_depth, nodes);
            proof {
                if entries_below(tt.entries(), current_depth - 1) {
                    assert(entries_below(tt.entries(), current_depth as int));
                }
            }
            tt = table;
            nodes = total;
            match outcome {
                LayerOutcome::NoMoves => {
                    break;
                },
                LayerOutcome::Cancelled => {
                    break;
                },
                LayerOutcome::Finished(layer_candidates) => {
                    proof {
                        if law {
                            lemma_covers_grow(
                                node_values(self.ctx.evaluator),
                                before_layer,
                                tt.entries(),
                                layer_mask,
                                root,
                                current_depth as nat,
                            );
                        }
                    }
                    last = SearchProgress {
                        candidates: copy_candidates(&layer_candidates),
                        depth_reached: current_depth,
                        nodes_explored: nodes,
                        pv: Vec::new(),
                    };
                    self.shared_progress.publish(
                        true_state,
                        SearchProgress {
                            candidates: layer_candidates,
                            depth_reached: current_depth,
                            nodes_explored: nodes,
                            pv: Vec::new(),
                        },
                    );
                    proof {
                        assert(layer_report(self.ctx, root, current_depth, search_law(self.ctx, root, self.max_depth), last.report()));
                        pubs = pubs.push(last.report());
                        assert(self.shared_progress.published() =~= pub0 + pubs);
                    }
                },
            }
            if current_depth == self.max_depth {
                break;
            }
            current_depth = current_depth + 1;
        }
        proof {
            lemma_published_tail(self.ctx, root, self.min_depth, self.max_depth, pub0, pubs, self.shared_progress.published(), last);
        }
        last
    }
}

/// A copy of a list of scored moves.
fn copy_candidates(v: &Vec<ScoredMove>) -> (r: Vec<ScoredMove>)
    ensures
        r@ == v@,
{
    let mut r: Vec<ScoredMove> = Vec::new();
    let mut i: usize = 0;
    while i < v.len()
        invariant
            i <= v@.len(),
            r@ == v@.take(i as int),
        decreases v@.len() - i,
    {
        r.push(v[i]);
        assert(v@.take(i + 1) =~= v@.take(i as int).push(v@[i as int]));
        i = i + 1;
    }
    assert(v@.take(v@.len() as int) =~= v@);
    r
}

} // verus!
