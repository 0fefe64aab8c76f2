use vstd::prelude::*;
use std::sync::Arc;
use crate::controllers::SearchProgress;
use crate::evaluators::PositionEvaluator;
use crate::luts::EngineLUTs;
use crate::moves::{Move, capped};
use crate::score::{ScoredMove, extract_score_value, invert_score, score_value_defined, spec_invert_score, spec_score_value};
use crate::state::{GameState, legal_moves, spec_make_move};

verus! {

// ============================================================================
// PICKING A MOVE FROM SCORED CANDIDATES
// ============================================================================

/// Every candidate's score can be turned into its comparison value.
pub open spec fn candidates_defined(cands: Seq<ScoredMove>) -> bool {
    forall|i: int| 0 <= i < cands.len() ==> score_value_defined(#[trigger] cands[i].score)
}

/// Candidate `i` has the highest comparison value, and no later candidate ties it (the last
/// of the best is taken).
pub open spec fn is_best_index(cands: Seq<ScoredMove>, i: int) -> bool {
    &&& 0 <= i < cands.len()
    &&& forall|j: int| 0 <= j < cands.len() ==> spec_score_value(#[trigger] cands[j].score) <= spec_score_value(cands[i].score)
    &&& forall|j: int| i < j < cands.len() ==> spec_score_value(#[trigger] cands[j].score) < spec_score_value(cands[i].score)
}

/// Chooses among the scored candidates of a search.
pub struct ActionSelector;

impl ActionSelector {
    /// The move of the best candidate (the last one among equals), or none without candidates.
    pub fn select_best(result: &SearchProgress) -> (r: Option<Move>)
        requires
            candidates_defined(result.candidates@),
        ensures
            result.candidates@.len() == 0 <==> r is None,
            r matches Some(m) ==> exists|i: int| is_best_index(result.candidates@, i) && m == result.candidates@[i].current_move,
    {
        let cands = &result.candidates;
        if cands.len() == 0 {
            return None;
        }
        let mut best: usize = 0;
        let mut best_value = extract_score_value(cands[0].score);
        let mut i: usize = 1;
        while i < cands.len()
            invariant
                candidates_defined(cands@),
                1 <= i <= cands@.len(),
                best < i,
                best_value == spec_score_value(cands@[best as int].score),
                forall|j: int| 0 <= j < i ==> spec_score_value(#[trigger] cands@[j].score) <= best_value,
                forall|j: int| best < j < i ==> spec_score_value(#[trigger] cands@[j].score) < best_value,
            decreases cands@.len() - i,
        {
            let v = extract_score_value(cands[i].score);
            if v >= best_value {
                best = i;
                best_value = v;
            }
            i = i + 1;
        }
        proof {
            assert(is_best_index(cands@, best as int));
        }
        Some(cands[best].current_move)
    }
}

/// Entry `b` holds the largest of the values.
pub open spec fn is_top_index(values: Seq<i32>, b: int) -> bool {
    &&& 0 <= b < values.len()
    &&& forall|j: int| 0 <= j < values.len() ==> #[trigger] values[j] <= values[b]
}

/// Which candidates a tempered choice may take: for each comparison value, its loss against the
/// best value where that loss is at most `threshold`, `None` where it is larger.
pub fn tempered_losses(values: &Vec<i32>, threshold: i32) -> (r: Vec<Option<i32>>)
    requires
        values@.len() > 0,
        forall|i: int, j: int| 0 <= i < values@.len() && 0 <= j < values@.len() ==> values@[i] - values@[j] <= i32::MAX,
    ensures
        r@.len() == values@.len(),
        exists|b: int|
            #[trigger] is_top_index(values@, b) && forall|i: int|
                0 <= i < values@.len() ==> #[trigger] r@[i] == (if values@[b] - values@[i] <= threshold {
                    Some((values@[b] - values@[i]) as i32)
                } else {
                    None
                }),
{
    let mut best: usize = 0;
    let mut i: usize = 1;
    while i < values.len()
        invariant
            1 <= i <= values@.len(),
            best < values@.len(),
            forall|j: int| 0 <= j < i ==> #[trigger] values@[j] <= values@[best as int],
        decreases values@.len() - i,
    {
        if values[i] > values[best] {
            best = i;
        }
        i = i + 1;
    }
    let max_value = values[best];
    let mut losses: Vec<Option<i32>> = Vec::new();
    let mut k: usize = 0;
    while k < values.len()
        invariant
            best < values@.len(),
            max_value == values@[best as int],
            forall|j: int| 0 <= j < values@.len() ==> #[trigger] values@[j] <= values@[best as int],
            forall|i: int, j: int| 0 <= i < values@.len() && 0 <= j < values@.len() ==> values@[i] - values@[j] <= i32::MAX,
            k <= values@.len(),
            losses@.len() == k,
            forall|i: int|
                0 <= i < k ==> #[trigger] losses@[i] == (if max_value - values@[i] <= threshold {
                    Some((max_value - values@[i]) as i32)
                } else {
                    None
                }),
        decreases values@.len() - k,
    {
        assert(max_value - values@[k as int] <= i32::MAX);
        let loss = max_value - values[k];
        if loss <= threshold {
            losses.push(Some(loss));
        } else {
            losses.push(None);
        }
        k = k + 1;
    }
    assert(is_top_index(values@, best as int));
    losses
}

// ============================================================================
// ONE-PLY PICKER
// ============================================================================

/// A one-ply picker: scores each legal move by the evaluation of the position it leads to.
pub struct BasePickerSearch<'a, E: PositionEvaluator> {
    pub evaluator: Arc<E>,
    pub luts: &'a EngineLUTs,
}

impl<'a, E: PositionEvaluator> BasePickerSearch<'a, E> {
    /// A picker with this evaluator and these tables.
    pub fn new(luts: &'a EngineLUTs, evaluator: Arc<E>) -> (r: Self)
        ensures
            r.luts == luts,
            r.evaluator == evaluator,
    {
        BasePickerSearch { evaluator, luts }
    }

    /// Scores every legal move, in generation order, by the evaluation of the position after
    /// it turned to the mover's side; the progress reports depth one and one node per move.
    pub fn search_position(&self, state: &GameState) -> (r: SearchProgress)
        requires
            self.evaluator.ready(),
        ensures
            r.candidates@.len() == capped(legal_moves(*state)).len(),
            forall|i: int|
                0 <= i < r.candidates@.len() ==> (#[trigger] r.candidates@[i]).current_move == capped(
                    legal_moves(*state),
                )[i] && r.candidates@[i].score == spec_invert_score(
                    self.evaluator.spec_evaluate(spec_make_move(*state, capped(legal_moves(*state))[i])),
                ),
            r.depth_reached == 1,
            r.nodes_explored == r.candidates@.len(),
            r.pv@.len() == 0,
    {
        let legal = state.generate_legal_moves();
        let mut layer_candidates: Vec<ScoredMove> = Vec::new();
        let mut i: usize = 0;
        while i < legal.len()
            invariant
                self.evaluator.ready(),
                legal@ == capped(legal_moves(*state)),
                i <= legal@.len(),
                layer_candidates@.len() == i,
                forall|j: int|
                    0 <= j < i ==> (#[trigger] layer_candidates@[j]).current_move == legal@[j]
                        && layer_candidates@[j].score == spec_invert_score(
                        self.evaluator.spec_evaluate(spec_make_move(*state, legal@[j])),
                    ),
            decreases legal@.len() - i,
        {
            let current_move = legal.get(i);
            let mut next_state = *state;
            next_state.make_move(current_move);
            let raw_score = self.evaluator.evaluate(&next_state);
            layer_candidates.push(ScoredMove { current_move, score: invert_score(raw_score) });
            i = i + 1;
        }
        let n = layer_candidates.len();
        SearchProgress { candidates: layer_candidates, depth_reached: 1, nodes_explored: n, pv: Vec::new() }
    }

    /// The best candidate's move, or an error without candidates.
    pub fn select_move(&self, progress: &SearchProgress) -> (r: Result<Move, String>)
        requires
            candidates_defined(progress.candidates@),
        ensures
            progress.candidates@.len() == 0 <==> r is Err,
            r matches Ok(m) ==> exists|i: int| is_best_index(progress.candidates@, i) && m == progress.candidates@[i].current_move,
    {
        match ActionSelector::select_best(progress) {
            Some(m) => Ok(m),
            None => Err("BasePickerSearch failed to isolate a valid move selection.".to_owned()),
        }
    }
}

// ============================================================================
// TIMED NEGAMAX AGENT
// ============================================================================

/// The longest span a `Duration` holds, in nanoseconds.
pub const MAX_DURATION_NANOS: u128 = 18_446_744_073_709_551_615_999_999_999;

/// The time left on the clocks, in nanoseconds.
#[derive(Clone, Copy, PartialEq, Eq, Structural, Debug)]
pub struct GameClock {
    pub active_player_time: u128,
    pub opponent_time: u128,
    pub increment: u128,
}

/// The thinking time given for a move: a twentieth of the clock plus the increment.
pub open spec fn time_budget(clock: GameClock) -> int {
    clock.active_player_time / 20 + clock.increment
}

/// An iterative deepening negamax player with a time budget.
pub struct NegamaxAgent<'a, E: PositionEvaluator> {
    pub evaluator: Arc<E>,
    pub luts: &'a EngineLUTs,
    pub max_depth: usize,
}

impl<'a, E: PositionEvaluator> NegamaxAgent<'a, E> {
    /// An agent searching up to `max_depth` plies.
    pub fn new(luts: &'a EngineLUTs, evaluator: Arc<E>, max_depth: usize) -> (r: Self)
        ensures
            r.luts == luts,
            r.evaluator == evaluator,
            r.max_depth == max_depth,
    {
        NegamaxAgent { evaluator, luts, max_depth }
    }

    /// The time to think about a move: a twentieth of the remaining time plus the increment.
    pub fn calculate_time_budget(&self, clock: GameClock) -> (r: u128)
        requires
            time_budget(clock) <= MAX_DURATION_NANOS,
        ensures
            r == time_budget(clock),
    {
        let base_alloc = clock.active_player_time / 20;
        base_alloc + clock.increment
    }
}

} // verus!
