use vstd::prelude::*;
use vstd::arithmetic::power::pow;
use crate::evaluators::PositionEvaluator;
use crate::moves::{Move, MoveList, MAX_MOVE_COUNT, capped};
use crate::progress::{digit_base, digits_bounded, digit_at, place_value, lemma_place_value_bounds, lemma_place_value_lt};
use crate::score::{EvaluationScore, invert_score, mate_offset, spec_invert_score};
use crate::search::{
    CancelSignal, SearchContext, SearchTelemetry, compile_pv_line, commit_node_to_tt, evaluate_node_bounds,
    evaluate_tt_cache, generate_and_order_moves, is_move_order, spec_bounds_class, spec_node_bounds, spec_tt_cutoff,
};
use crate::state::{GameState, is_legal_move, legal_moves, spec_make_move, spec_unmake_move, lemma_legal_move_undo};
use crate::tt::{HashEntryBounds, TranspositionEntry, TranspositionTable, spec_lookup, spec_store, state_key};

verus! {

// ============================================================================
// FRAMES AND RESULTS
// ============================================================================

/// One open node of the search.
pub struct SearchFrame {
    /// How many of the node's moves have been played so far.
    pub move_idx: usize,
    /// The node's moves, in the order they are searched.
    pub legal_moves: MoveList,
    /// The current lower bound of the node's window.
    pub alpha: EvaluationScore,
    /// The upper bound of the node's window.
    pub beta: EvaluationScore,
    /// The best score found among the children searched so far.
    pub max_score: EvaluationScore,
    /// The lower bound the node was opened with, to classify its result for the cache.
    pub original_alpha: EvaluationScore,
    /// The best line found from this node.
    pub pv_line: Vec<Move>,
}

/// What one call into the machine did.
pub enum StepResult {
    /// A child node was opened: call `step` next.
    Deepen,
    /// The top node was settled with this score and line: hand them to `handle_backtrack`.
    Backtrack { score: EvaluationScore, pv: Vec<Move> },
    /// The search is over.
    Done { best_score: EvaluationScore, pv: Vec<Move> },
}

// ============================================================================
// POSITIONS ALONG THE STACK
// ============================================================================

/// The move a frame played last.
pub open spec fn played_move(f: SearchFrame) -> Move {
    f.legal_moves@[f.move_idx - 1]
}

/// The position of the frame at height `k`: the root with the last move of each frame below
/// it played.
#[verifier::opaque]
pub open spec fn path_position(root: GameState, stack: Seq<SearchFrame>, k: int) -> GameState
    decreases k,
{
    if k <= 0 {
        root
    } else {
        spec_make_move(path_position(root, stack, k - 1), played_move(stack[k - 1]))
    }
}

/// The moves can be played one after the other from `s`, each legal where it is played.
pub open spec fn legal_line(s: GameState, line: Seq<Move>) -> bool
    decreases line.len(),
{
    if line.len() == 0 {
        true
    } else {
        is_legal_move(s, line[0]) && legal_line(spec_make_move(s, line[0]), line.drop_first())
    }
}

/// A frame fits its position: its moves are legal there, at most a list's worth, its counter
/// stays within them, and its line is playable from there.
pub open spec fn frame_ok(f: SearchFrame, p: GameState) -> bool {
    &&& f.move_idx <= f.legal_moves@.len()
    &&& f.legal_moves@.len() <= MAX_MOVE_COUNT
    &&& forall|i: int| 0 <= i < f.legal_moves@.len() ==> is_legal_move(p, #[trigger] f.legal_moves@[i])
    &&& legal_line(p, f.pv_line@)
}

/// A line that starts with `m` is legal exactly when `m` is and the rest is legal after it.
pub proof fn lemma_legal_line_cons(s: GameState, m: Move, rest: Seq<Move>)
    ensures
        legal_line(s, seq![m] + rest) == (is_legal_move(s, m) && legal_line(spec_make_move(s, m), rest)),
{
    assert((seq![m] + rest).drop_first() =~= rest);
}

/// Positions depend only on the moves played by the frames below.
proof fn lemma_path_prefix(root: GameState, a: Seq<SearchFrame>, b: Seq<SearchFrame>, k: int)
    requires
        0 <= k <= a.len(),
        k <= b.len(),
        forall|i: int| 0 <= i < k ==> played_move(#[trigger] a[i]) == played_move(b[i]),
    ensures
        path_position(root, a, k) == path_position(root, b, k),
    decreases k,
{
    reveal(path_position);
    if k > 0 {
        lemma_path_prefix(root, a, b, k - 1);
    }
}

/// The root sits at height zero, and each height is the one below with that frame's move
/// played.
pub proof fn lemma_path_step(root: GameState, stack: Seq<SearchFrame>, k: int)
    requires
        0 <= k,
    ensures
        path_position(root, stack, 0) == root,
        path_position(root, stack, k + 1) == spec_make_move(path_position(root, stack, k), played_move(stack[k])),
{
    reveal(path_position);
}

// ============================================================================
// THE MACHINE
// ============================================================================

/// An alpha-beta negamax search run one node at a time, with an explicit stack of frames.
pub struct NegamaxStateMachine<'a, E: PositionEvaluator, C: CancelSignal, T: SearchTelemetry> {
    pub ctx: &'a SearchContext<'a, E, C>,
    pub tt: TranspositionTable,
    pub telemetry: &'a T,
    /// The position of the top frame (or of its child, while its result is pending).
    pub state: GameState,
    pub stack: Vec<SearchFrame>,
    pub max_depth: usize,
    /// The position the search started from.
    pub root: Ghost<GameState>,
    /// How many nodes the machine has recorded with its telemetry.
    pub visits: Ghost<nat>,
}

impl<'a, E: PositionEvaluator, C: CancelSignal, T: SearchTelemetry> NegamaxStateMachine<'a, E, C, T> {
    /// The top frame.
    pub open spec fn top(&self) -> SearchFrame {
        self.stack@.last()
    }

    /// Plies left below the top frame.
    pub open spec fn top_remaining(&self) -> usize {
        (self.max_depth - (self.stack@.len() - 1)) as usize
    }

    /// The machine is consistent. With `awaiting`, the top frame's child has just been
    /// settled and its result is pending; else the top frame is the next to step.
    pub open spec fn inv(&self, awaiting: bool) -> bool {
        let n = self.stack@.len() as int;
        &&& self.ctx.ready()
        &&& self.tt.wf()
        &&& 1 <= n <= self.max_depth + 1
        &&& forall|k: int|
            0 <= k < n ==> frame_ok(#[trigger] self.stack@[k], path_position(self.root@, self.stack@, k))
        &&& forall|k: int| 0 <= k < n - 1 ==> (#[trigger] self.stack@[k]).move_idx >= 1
        &&& awaiting ==> self.stack@[n - 1].move_idx >= 1
        &&& self.stack@[n - 1].move_idx >= 1 ==> n - 1 < self.max_depth
        &&& self.state == path_position(
            self.root@,
            self.stack@,
            if awaiting {
                n
            } else {
                n - 1
            },
        )
    }

    /// One digit per frame: three per move played, plus 1 below the top, 2 at a top frame
    /// awaiting a result and 3 at a top frame about to step.
    pub open spec fn digits(&self, awaiting: bool) -> Seq<int> {
        let n = self.stack@.len() as int;
        Seq::new(
            n as nat,
            |k: int|
                3 * self.stack@[k].move_idx + if k < n - 1 {
                    1int
                } else if awaiting {
                    2int
                } else {
                    3int
                },
        )
    }

    /// The work left: every step and every handed-in result lowers it, and it stays positive
    /// while the search runs.
    pub open spec fn work_left(&self, awaiting: bool) -> int {
        pow(digit_base(), (self.max_depth + 1) as nat) - place_value(
            self.digits(awaiting),
            0,
            (self.max_depth + 1) as nat,
        )
    }

    /// Both machines share context, telemetry, depth, root and cache size.
    pub open spec fn same_setup(&self, other: &Self) -> bool {
        &&& self.ctx == other.ctx
        &&& self.telemetry == other.telemetry
        &&& self.max_depth == other.max_depth
        &&& self.root@ == other.root@
        &&& self.tt.index_mask() == other.tt.index_mask()
    }

    /// The score the cache settles the top frame with, before it plays any move.
    pub open spec fn top_cutoff(&self) -> Option<EvaluationScore> {
        if self.top().move_idx == 0 {
            spec_tt_cutoff(
                spec_lookup(self.tt.entries(), self.tt.index_mask(), self.state),
                self.top_remaining(),
                self.top().alpha,
                self.top().beta,
            )
        } else {
            None
        }
    }

    /// The score the top frame is closed with: its terminal score before its first move,
    /// its best score once its moves are used up.
    pub open spec fn top_closing(&self) -> Option<EvaluationScore> {
        let f = self.top();
        if f.move_idx == 0 {
            spec_node_bounds(self.ctx.evaluator, self.state, f.legal_moves@.len(), self.top_remaining())
        } else if f.move_idx >= f.legal_moves@.len() {
            Some(f.max_score)
        } else {
            None
        }
    }

    /// The top frame was popped and its result reported: to the frame below as `Backtrack`,
    /// or as `Done` when it was the root.
    pub open spec fn popped_with(&self, new: &Self, r: StepResult, score: EvaluationScore, pv: Seq<Move>) -> bool {
        &&& new.stack@ == self.stack@.drop_last()
        &&& match r {
            StepResult::Deepen => false,
            StepResult::Backtrack { score: s, pv: p } => new.stack@.len() > 0 && s == score && p@ == pv,
            StepResult::Done { best_score: s, pv: p } => new.stack@.len() == 0 && s == score && p@ == pv,
        }
    }

    /// The cache after closing the top frame at `at` with `score`: the score is stored with
    /// the top frame's remaining depth and the bound class its window gives it.
    pub open spec fn closed_entries(&self, at: GameState, score: EvaluationScore) -> Seq<
        Option<crate::tt::TranspositionEntry>,
    > {
        spec_store(
            self.tt.entries(),
            self.tt.index_mask(),
            at,
            score,
            self.top_remaining(),
            spec_bounds_class(score, self.top().original_alpha, self.top().beta),
        )
    }

    /// The top frame played its next move and opened the child position with the window
    /// turned around and its moves in search order.
    pub open spec fn deepened(&self, new: &Self) -> bool {
        let f = self.top();
        let n = self.stack@.len() as int;
        let child = new.stack@[n];
        &&& new.stack@.len() == n + 1
        &&& new.stack@.take(n - 1) == self.stack@.take(n - 1)
        &&& new.stack@[n - 1] == SearchFrame { move_idx: (f.move_idx + 1) as usize, ..f }
        &&& new.state == spec_make_move(self.state, f.legal_moves@[f.move_idx as int])
        &&& child.move_idx == 0
        &&& child.alpha == spec_invert_score(f.beta)
        &&& child.beta == spec_invert_score(f.alpha)
        &&& child.original_alpha == spec_invert_score(f.beta)
        &&& child.max_score == EvaluationScore::Mated(0)
        &&& child.pv_line@.len() == 0
        &&& is_move_order(self.ctx.luts, new.state, self.top_remaining() - 1, child.legal_moves@)
        &&& new.tt.entries() == self.tt.entries()
    }

    /// The search was stopped by its cancel signal: nothing changed and the result is void.
    pub open spec fn stopped(&self, new: &Self, r: StepResult) -> bool {
        &&& new.stack@ == self.stack@
        &&& new.state == self.state
        &&& new.tt.entries() == self.tt.entries()
        &&& r matches StepResult::Done { best_score, pv } && best_score == EvaluationScore::Value(0) && pv@.len()
            == 0
    }

    /// What `step` does when not stopped: a cache hit settles the top frame as it is; a
    /// terminal position or used-up moves close it and cache its score; else it plays its
    /// next move.
    pub open spec fn step_outcome(&self, new: &Self, r: StepResult) -> bool {
        match self.top_cutoff() {
            Some(c) => {
                &&& self.popped_with(new, r, c, Seq::empty())
                &&& new.state == self.state
                &&& new.tt.entries() == self.tt.entries()
            },
            None => match self.top_closing() {
                Some(v) => {
                    &&& self.popped_with(new, r, v, self.top().pv_line@)
                    &&& new.state == self.state
                    &&& new.tt.entries() == self.closed_entries(self.state, v)
                },
                None => r is Deepen && self.deepened(new),
            },
        }
    }

    /// The result the machine reports fits where it lands.
    pub open spec fn reports(&self, old: &Self, r: StepResult, awaiting_before: bool) -> bool {
        match r {
            StepResult::Deepen => {
                &&& self.inv(false)
                &&& 0 <= self.work_left(false) < old.work_left(awaiting_before)
            },
            StepResult::Backtrack { score, pv } => {
                &&& self.inv(true)
                &&& 0 <= self.work_left(true) < old.work_left(awaiting_before)
                &&& legal_line(self.state, pv@)
            },
            StepResult::Done { best_score, pv } => {
                &&& self.tt.wf()
                &&& self.stack@.len() == 0 ==> self.state == self.root@ && legal_line(self.root@, pv@)
            },
        }
    }

    /// The result of the top frame's child, seen from the top frame: the child's score turned
    /// around.
    pub open spec fn child_relative(child_score: EvaluationScore) -> EvaluationScore {
        spec_invert_score(child_score)
    }

    /// Whether the child's result beats the top frame's best so far.
    pub open spec fn improves(&self, child_score: EvaluationScore) -> bool {
        Self::child_relative(child_score).rank() > self.top().max_score.rank()
    }

    /// The top frame's best score after the child's result.
    pub open spec fn best_after(&self, child_score: EvaluationScore) -> EvaluationScore {
        if self.improves(child_score) {
            Self::child_relative(child_score)
        } else {
            self.top().max_score
        }
    }

    /// The top frame's best line after the child's result.
    pub open spec fn line_after(&self, child_score: EvaluationScore, child_pv: Seq<Move>) -> Seq<Move> {
        if self.improves(child_score) {
            seq![played_move(self.top())] + child_pv
        } else {
            self.top().pv_line@
        }
    }

    /// The top frame's alpha after the child's result: raised to the best score below the
    /// root; the root's window is never narrowed.
    pub open spec fn alpha_after(&self, child_score: EvaluationScore) -> EvaluationScore {
        if self.stack@.len() != 1 && self.best_after(child_score).rank() > self.top().alpha.rank() {
            self.best_after(child_score)
        } else {
            self.top().alpha
        }
    }

    /// The top frame is done after the child's result: its window closed (below the root), or
    /// its moves are used up.
    pub open spec fn closes_after(&self, child_score: EvaluationScore) -> bool {
        ||| (self.stack@.len() != 1 && self.alpha_after(child_score).rank() >= self.top().beta.rank())
        ||| self.top().move_idx >= self.top().legal_moves@.len()
    }

    /// What `handle_backtrack` does: takes back the move, folds the child's result into the top
    /// frame, then closes it (caching its score) or goes on to its next move.
    pub open spec fn backtrack_outcome(
        &self,
        new: &Self,
        r: StepResult,
        child_score: EvaluationScore,
        child_pv: Seq<Move>,
    ) -> bool {
        let f = self.top();
        let at = spec_unmake_move(self.state, played_move(f));
        let best = self.best_after(child_score);
        let line = self.line_after(child_score, child_pv);
        &&& new.state == at
        &&& if self.closes_after(child_score) {
            &&& self.popped_with(new, r, best, line)
            &&& new.tt.entries() == self.closed_entries(at, best)
        } else {
            let g = new.top();
            &&& r is Deepen
            &&& new.stack@.len() == self.stack@.len()
            &&& new.stack@.drop_last() == self.stack@.drop_last()
            &&& g.move_idx == f.move_idx
            &&& g.legal_moves == f.legal_moves
            &&& g.alpha == self.alpha_after(child_score)
            &&& g.beta == f.beta
            &&& g.max_score == best
            &&& g.original_alpha == f.original_alpha
            &&& g.pv_line@ == line
            &&& new.tt.entries() == self.tt.entries()
        }
    }

    /// While the machine runs, the work left is positive.
    pub proof fn lemma_work_positive(&self, awaiting: bool)
        requires
            self.inv(awaiting),
        ensures
            self.work_left(awaiting) > 0,
            digits_bounded(self.digits(awaiting)),
    {
        self.lemma_digits_bounded(awaiting);
        lemma_place_value_bounds(self.digits(awaiting), 0, (self.max_depth + 1) as nat);
    }

    proof fn lemma_digits_bounded(&self, awaiting: bool)
        requires
            self.inv(awaiting),
        ensures
            digits_bounded(self.digits(awaiting)),
    {
        assert forall|i: int| 0 <= i < self.digits(awaiting).len() implies 0 <= #[trigger] self.digits(
            awaiting,
        )[i] < digit_base() by {
            assert(frame_ok(self.stack@[i], path_position(self.root@, self.stack@, i)));
        }
    }

    /// Allocates a machine at the root of a search of `target_depth` plies.
    pub fn new(
        ctx: &'a SearchContext<'a, E, C>,
        tt: TranspositionTable,
        telemetry: &'a T,
        initial_state: GameState,
        target_depth: usize,
    ) -> (r: Self)
        requires
            ctx.ready(),
            tt.wf(),
        ensures
            r.inv(false),
            r.ctx == ctx,
            r.telemetry == telemetry,
            r.max_depth == target_depth,
            r.root@ == initial_state,
            r.visits@ == 0,
            r.state == initial_state,
            r.tt.entries() == tt.entries(),
            r.tt.index_mask() == tt.index_mask(),
            r.stack@.len() == 1,
            r.stack@[0].move_idx == 0,
            r.stack@[0].alpha == EvaluationScore::Mated(0),
            r.stack@[0].beta == EvaluationScore::Mating(0),
            r.stack@[0].original_alpha == EvaluationScore::Mated(0),
            r.stack@[0].max_score == EvaluationScore::Mated(0),
            r.stack@[0].pv_line@.len() == 0,
            is_move_order(ctx.luts, initial_state, target_depth as int, r.stack@[0].legal_moves@),
    {
        let mut machine = NegamaxStateMachine {
            ctx,
            tt,
            telemetry,
            state: initial_state,
            stack: Vec::new(),
            max_depth: target_depth,
            root: Ghost(initial_state),
            visits: Ghost(0),
        };
        machine.push_root_frame();
        machine
    }

    /// Opens the root frame with the widest window.
    fn push_root_frame(&mut self)
        requires
            old(self).stack@.len() == 0,
            old(self).ctx.ready(),
            old(self).tt.wf(),
            old(self).state == old(self).root@,
        ensures
            final(self).visits == old(self).visits,
            final(self).inv(false),
            final(self).same_setup(old(self)),
            final(self).state == old(self).state,
            final(self).tt == old(self).tt,
            final(self).stack@.len() == 1,
            final(self).stack@[0].move_idx == 0,
            final(self).stack@[0].alpha == EvaluationScore::Mated(0),
            final(self).stack@[0].beta == EvaluationScore::Mating(0),
            final(self).stack@[0].original_alpha == EvaluationScore::Mated(0),
            final(self).stack@[0].max_score == EvaluationScore::Mated(0),
            final(self).stack@[0].pv_line@.len() == 0,
            is_move_order(old(self).ctx.luts, old(self).state, old(self).max_depth as int, final(self).stack@[0].legal_moves@),
    {
        let alpha = EvaluationScore::Mated(0);
        let beta = EvaluationScore::Mating(0);
        let legal_moves = generate_and_order_moves(&self.state, self.max_depth, self.ctx.luts);
        self.stack.push(
            SearchFrame {
                move_idx: 0,
                legal_moves,
                alpha,
                beta,
                max_score: EvaluationScore::Mated(0),
                original_alpha: alpha,
                pv_line: Vec::new(),
            },
        );
        proof {
            let f = self.stack@[0];
            lemma_path_step(self.root@, self.stack@, 0);
            assert(frame_ok(f, self.root@));
        }
    }

    /// The digits of `b` first differ from those of `a` at height `k`, where `b`'s is larger:
    /// `b` has less work left.
    proof fn lemma_work_drops(a: &Self, aw_a: bool, b: &Self, aw_b: bool, k: int)
        requires
            a.inv(aw_a),
            b.inv(aw_b),
            a.max_depth == b.max_depth,
            0 <= k < a.stack@.len(),
            k < b.stack@.len(),
            forall|j: int| 0 <= j < k ==> a.digits(aw_a)[j] == b.digits(aw_b)[j],
            a.digits(aw_a)[k] < b.digits(aw_b)[k],
        ensures
            0 < b.work_left(aw_b) < a.work_left(aw_a),
    {
        a.lemma_work_positive(aw_a);
        b.lemma_work_positive(aw_b);
        let width = (a.max_depth + 1) as nat;
        assert forall|j: int| 0 <= j < k implies digit_at(a.digits(aw_a), j) == digit_at(b.digits(aw_b), j) by {}
        lemma_place_value_lt(a.digits(aw_a), b.digits(aw_b), 0, k as nat, width);
    }

    /// Popping the top frame, with the position set back to that frame's own, leaves a
    /// consistent machine whose new top awaits the popped frame's result.
    proof fn lemma_popped(old: &Self, aw: bool, new: &Self)
        requires
            old.inv(aw),
            old.stack@.len() >= 2,
            new.stack@ == old.stack@.drop_last(),
            new.same_setup(old),
            new.tt.wf(),
            new.state == path_position(old.root@, old.stack@, old.stack@.len() - 1),
        ensures
            new.inv(true),
            0 < new.work_left(true) < old.work_left(aw),
    {
        let n = old.stack@.len() as int;
        assert forall|k: int| 0 <= k <= n - 1 implies path_position(new.root@, new.stack@, k) == path_position(
            old.root@,
            old.stack@,
            k,
        ) by {
            lemma_path_prefix(old.root@, new.stack@, old.stack@, k);
        }
        assert forall|k: int| 0 <= k < n - 1 implies frame_ok(
            #[trigger] new.stack@[k],
            path_position(new.root@, new.stack@, k),
        ) by {
            assert(frame_ok(old.stack@[k], path_position(old.root@, old.stack@, k)));
        }
        assert(old.stack@[n - 2].move_idx >= 1);
        assert(new.inv(true));
        Self::lemma_work_drops(old, aw, new, true, n - 2);
    }

    /// Pops the top frame, caches its best score with the bound class its window gives it,
    /// and reports it: to the frame below, or as the final result at the root.
    fn finalize_and_backtrack(&mut self) -> (r: StepResult)
        requires
            old(self).stack@.len() >= 1,
            old(self).stack@.len() <= old(self).max_depth + 1,
            old(self).tt.wf(),
        ensures
            final(self).visits == old(self).visits,
            final(self).same_setup(old(self)),
            final(self).state == old(self).state,
            final(self).tt.wf(),
            old(self).popped_with(final(self), r, old(self).top().max_score, old(self).top().pv_line@),
            final(self).tt.entries() == old(self).closed_entries(old(self).state, old(self).top().max_score),
    {
        let frame = match self.stack.pop() {
            Some(f) => f,
            None => {
                return StepResult::Done { best_score: EvaluationScore::Value(0), pv: Vec::new() };
            },
        };
        let remaining_depth = self.max_depth - self.stack.len();
        commit_node_to_tt(
            &self.state,
            &mut self.tt,
            frame.max_score,
            frame.original_alpha,
            frame.beta,
            remaining_depth,
        );
        if self.stack.len() == 0 {
            StepResult::Done { best_score: frame.max_score, pv: frame.pv_line }
        } else {
            StepResult::Backtrack { score: frame.max_score, pv: frame.pv_line }
        }
    }

    /// Advances the search by one node: stops at the cancel signal; settles the top frame from
    /// the cache or closes it when it is terminal or its moves are used up; else plays its
    /// next move and opens the child.
    #[verifier::spinoff_prover]
    #[verifier::rlimit(40)]
    pub fn step(&mut self) -> (r: StepResult)
        requires
            old(self).inv(false),
        ensures
            final(self).same_setup(old(self)),
            (old(self).stopped(final(self), r) && old(self).ctx.cancelled.can_cancel() && final(self).visits@
                == old(self).visits@) || (old(self).step_outcome(final(self), r) && final(self).visits@ == old(
                self,
            ).visits@ + 1),
            !(r is Done) ==> old(self).step_outcome(final(self), r) && final(self).visits@ == old(self).visits@ + 1,
            final(self).reports(old(self), r, false),
    {
        if self.ctx.cancelled.is_cancelled() {
            return StepResult::Done { best_score: EvaluationScore::Value(0), pv: Vec::new() };
        }
        let ghost before = *self;
        let current_depth = self.stack.len() - 1;
        let remaining_depth = self.max_depth - current_depth;
        self.telemetry.record_node_explored();
        proof {
            self.visits = Ghost(self.visits@ + 1);
        }
        let mut frame = match self.stack.pop() {
            Some(f) => f,
            None => {
                return StepResult::Done { best_score: EvaluationScore::Value(0), pv: Vec::new() };
            },
        };
        let ghost n = before.stack@.len() as int;
        proof {
            assert(frame == before.top());
            assert(remaining_depth == before.top_remaining());
            assert(frame_ok(before.stack@[n - 1], path_position(before.root@, before.stack@, n - 1)));
        }
        if frame.move_idx == 0 {
            match evaluate_tt_cache(&self.state, &self.tt, remaining_depth, frame.alpha, frame.beta) {
                Some(cached_score) => {
                    let r = if self.stack.len() == 0 {
                        StepResult::Done { best_score: cached_score, pv: Vec::new() }
                    } else {
                        StepResult::Backtrack { score: cached_score, pv: Vec::new() }
                    };
                    proof {
                        if n >= 2 {
                            lemma_path_prefix(before.root@, self.stack@, before.stack@, n - 1);
                            Self::lemma_popped(&before, false, self);
                        } else {
                            lemma_path_step(before.root@, before.stack@, 0);
                        }
                    }
                    return r;
                },
                None => {},
            }
            match evaluate_node_bounds(&self.state, self.ctx, &frame.legal_moves, remaining_depth) {
                Some(terminal_score) => {
                    frame.max_score = terminal_score;
                    self.stack.push(frame);
                    let ghost mid = *self;
                    let r = self.finalize_and_backtrack();
                    proof {
                        assert(mid.stack@.drop_last() == before.stack@.drop_last());
                        if n >= 2 {
                            lemma_path_prefix(before.root@, self.stack@, before.stack@, n - 1);
                            Self::lemma_popped(&before, false, self);
                        } else {
                            lemma_path_step(before.root@, before.stack@, 0);
                        }
                    }
                    return r;
                },
                None => {},
            }
        } else if frame.move_idx >= frame.legal_moves.len() {
            self.stack.push(frame);
            let ghost mid = *self;
            let r = self.finalize_and_backtrack();
            proof {
                assert(mid.stack@ == before.stack@);
                if n >= 2 {
                    lemma_path_prefix(before.root@, self.stack@, before.stack@, n - 1);
                    Self::lemma_popped(&before, false, self);
                } else {
                    lemma_path_step(before.root@, before.stack@, 0);
                }
            }
            return r;
        }
        let chosen_move = frame.legal_moves.get(frame.move_idx);
        frame.move_idx = frame.move_idx + 1;
        self.state.make_move(chosen_move);
        let next_alpha = invert_score(frame.beta);
        let next_beta = invert_score(frame.alpha);
        let next_remaining_depth = remaining_depth - 1;
        let next_legal_moves = generate_and_order_moves(&self.state, next_remaining_depth, self.ctx.luts);
        self.stack.push(frame);
        self.stack.push(
            SearchFrame {
                move_idx: 0,
                legal_moves: next_legal_moves,
                alpha: next_alpha,
                beta: next_beta,
                max_score: EvaluationScore::Mated(0),
                original_alpha: next_alpha,
                pv_line: Vec::new(),
            },
        );
        proof {
            let new_stack = self.stack@;
            assert(new_stack.take(n - 1) =~= before.stack@.take(n - 1));
            assert(played_move(new_stack[n - 1]) == chosen_move);
            lemma_path_prefix(before.root@, new_stack, before.stack@, n - 1);
            lemma_path_step(before.root@, new_stack, n - 1);
            assert(self.state == path_position(self.root@, new_stack, n));
            assert forall|k: int| 0 <= k < n + 1 implies frame_ok(
                #[trigger] new_stack[k],
                path_position(self.root@, new_stack, k),
            ) by {
                if k < n - 1 {
                    lemma_path_prefix(before.root@, new_stack, before.stack@, k);
                    assert(new_stack[k] == before.stack@[k]);
                    assert(frame_ok(before.stack@[k], path_position(before.root@, before.stack@, k)));
                } else if k == n - 1 {
                } else {
                    assert(legal_line(self.state, new_stack[k].pv_line@));
                }
            }
            assert(self.inv(false));
            Self::lemma_work_drops(&before, false, self, false, n - 1);
        }
        StepResult::Deepen
    }

    /// Receives the settled result of the top frame's child: takes back the child's move,
    /// keeps the result (and its line) when it beats the best so far, narrows the window below
    /// the root, then closes the frame on a cutoff or when its moves are used up.
    #[verifier::spinoff_prover]
    #[verifier::rlimit(40)]
    pub fn handle_backtrack(&mut self, child_score: EvaluationScore, child_pv: Vec<Move>) -> (r: StepResult)
        requires
            old(self).inv(true),
            legal_line(old(self).state, child_pv@),
        ensures
            final(self).same_setup(old(self)),
            final(self).visits@ == old(self).visits@,
            old(self).backtrack_outcome(final(self), r, child_score, child_pv@),
            final(self).reports(old(self), r, true),
    {
        let ghost before = *self;
        let ghost n = before.stack@.len() as int;
        let mut last_executed_move: Option<Move> = None;
        let len = self.stack.len();
        if len > 0 {
            let idx = self.stack[len - 1].move_idx;
            if idx > 0 {
                let m = self.stack[len - 1].legal_moves.get(idx - 1);
                last_executed_move = Some(m);
                self.state.unmake_move(m);
            }
        }
        proof {
            let f = before.top();
            let p = path_position(before.root@, before.stack@, n - 1);
            assert(frame_ok(before.stack@[n - 1], p));
            lemma_path_step(before.root@, before.stack@, n - 1);
            assert(is_legal_move(p, played_move(f)));
            lemma_legal_move_undo(p, played_move(f));
            assert(self.state == p);
        }
        let relative_score = invert_score(child_score);
        let is_root = self.stack.len() == 1;
        let mut frame = match self.stack.pop() {
            Some(f) => f,
            None => {
                return StepResult::Done { best_score: relative_score, pv: child_pv };
            },
        };
        if relative_score.gt(&frame.max_score) {
            frame.max_score = relative_score;
            match last_executed_move {
                Some(m) => {
                    frame.pv_line = compile_pv_line(m, child_pv.as_slice());
                },
                None => {},
            }
        }
        if !is_root {
            if frame.max_score.gt(&frame.alpha) {
                frame.alpha = frame.max_score;
            }
        }
        let ghost p = path_position(before.root@, before.stack@, n - 1);
        proof {
            let f = before.top();
            assert(frame.pv_line@ == before.line_after(child_score, child_pv@));
            assert(frame.max_score == before.best_after(child_score));
            assert(frame.alpha == before.alpha_after(child_score));
            if before.improves(child_score) {
                lemma_path_step(before.root@, before.stack@, n - 1);
                lemma_legal_line_cons(p, played_move(f), child_pv@);
            }
            assert(legal_line(p, frame.pv_line@));
        }
        if !is_root && frame.alpha.ge(&frame.beta) {
            self.stack.push(frame);
            let ghost mid = *self;
            let r = self.finalize_and_backtrack();
            proof {
                assert(mid.stack@.drop_last() == before.stack@.drop_last());
                assert(before.closes_after(child_score));
                if n >= 2 {
                    lemma_path_prefix(before.root@, self.stack@, before.stack@, n - 1);
                    Self::lemma_popped(&before, true, self);
                } else {
                    lemma_path_step(before.root@, before.stack@, 0);
                }
            }
            return r;
        }
        if frame.move_idx >= frame.legal_moves.len() {
            self.stack.push(frame);
            let ghost mid = *self;
            let r = self.finalize_and_backtrack();
            proof {
                assert(mid.stack@.drop_last() == before.stack@.drop_last());
                assert(before.closes_after(child_score));
                if n >= 2 {
                    lemma_path_prefix(before.root@, self.stack@, before.stack@, n - 1);
                    Self::lemma_popped(&before, true, self);
                } else {
                    lemma_path_step(before.root@, before.stack@, 0);
                }
            }
            return r;
        }
        self.stack.push(frame);
        proof {
            let new_stack = self.stack@;
            assert(!before.closes_after(child_score));
            assert(new_stack.drop_last() =~= before.stack@.drop_last());
            assert forall|k: int| 0 <= k <= n - 1 implies path_position(self.root@, new_stack, k) == path_position(
                before.root@,
                before.stack@,
                k,
            ) by {
                lemma_path_prefix(before.root@, new_stack, before.stack@, k);
            }
            assert forall|k: int| 0 <= k < n implies frame_ok(
                #[trigger] new_stack[k],
                path_position(self.root@, new_stack, k),
            ) by {
                if k < n - 1 {
                    assert(new_stack[k] == before.stack@[k]);
                    assert(frame_ok(before.stack@[k], path_position(before.root@, before.stack@, k)));
                }
            }
            assert(self.inv(false));
            Self::lemma_work_drops(&before, true, self, false, n - 1);
        }
        StepResult::Deepen
    }

    /// Gives back the cache.
    pub fn into_table(self) -> (r: TranspositionTable)
        ensures
            r == self.tt,
    {
        self.tt
    }
}

// ============================================================================
// THE VALUE A SEARCH STANDS FOR
// ============================================================================

/// How many plies away a forced result is (none for a value).
pub open spec fn plies(x: EvaluationScore) -> int {
    match x {
        EvaluationScore::Mated(n) => n as int,
        EvaluationScore::Value(_) => 0,
        EvaluationScore::Mating(n) => n as int,
    }
}

/// A score as an outcome: the value itself, or the sign of a forced result (how many plies
/// away it is left aside).
pub open spec fn outcome(x: EvaluationScore) -> int {
    match x {
        EvaluationScore::Mated(_) => -mate_offset(),
        EvaluationScore::Value(v) => v as int,
        EvaluationScore::Mating(_) => mate_offset(),
    }
}

/// The best of the scores by rank, starting from a loss now; a later score takes the place of
/// an earlier one only when it ranks strictly higher.
pub open spec fn best_score(xs: Seq<EvaluationScore>) -> EvaluationScore
    decreases xs.len(),
{
    if xs.len() == 0 {
        EvaluationScore::Mated(0)
    } else {
        let p = best_score(xs.drop_last());
        if xs.last().rank() > p.rank() {
            xs.last()
        } else {
            p
        }
    }
}

/// The negamax value of `s` searched `d` plies deep: the evaluation at the depth limit, a loss
/// now without legal moves, else the best of the children's values turned around, over the
/// legal moves a move list holds.
pub open spec fn negamax_value<E: PositionEvaluator>(ev: &E, s: GameState, d: nat) -> EvaluationScore
    decreases d, 1int,
{
    if d == 0 {
        ev.spec_evaluate(s)
    } else if legal_moves(s).len() == 0 {
        EvaluationScore::Mated(0)
    } else {
        best_score(child_values(ev, s, d, capped(legal_moves(s))))
    }
}

/// The children's values `d - 1` plies deep, turned around, in the order `ms` lists the moves.
pub open spec fn child_values<E: PositionEvaluator>(ev: &E, s: GameState, d: nat, ms: Seq<Move>) -> Seq<
    EvaluationScore,
>
    decreases d, 0int,
{
    if d == 0 {
        Seq::empty()
    } else {
        ms.map_values(|m: Move| spec_invert_score(negamax_value(ev, spec_make_move(s, m), (d - 1) as nat)))
    }
}

/// The evaluator reports no forced result but a loss now, and no value below `-i32::MAX`.
pub open spec fn plain_leaves<E: PositionEvaluator>(ev: &E) -> bool {
    forall|q: GameState|
        #![trigger ev.spec_evaluate(q)]
        (ev.spec_evaluate(q) is Value && ev.spec_evaluate(q) != EvaluationScore::Value(i32::MIN))
            || ev.spec_evaluate(q) == EvaluationScore::Mated(0)
}

/// The fail-soft relation between a search result `r` and the value `v` it stands for,
/// searched with the window (`alpha`, `beta`): at or below alpha the result bounds the
/// outcome from above, at or above beta from below, and inside the window it is the outcome.
pub open spec fn fail_soft(r: EvaluationScore, v: EvaluationScore, alpha: EvaluationScore, beta: EvaluationScore, exact: bool) -> bool {
    &&& r.rank() <= alpha.rank() ==> score_key(v, exact) <= score_key(r, exact)
    &&& r.rank() >= beta.rank() ==> score_key(v, exact) >= score_key(r, exact)
    &&& alpha.rank() < r.rank() < beta.rank() ==> score_key(v, exact) == score_key(r, exact)
}

/// The `i`-th child of `s` among the legal moves a move list holds.
pub open spec fn child_of(s: GameState, i: int) -> GameState {
    spec_make_move(s, capped(legal_moves(s))[i])
}

/// Where the path of move indices leads from `s`, each index picking among the legal moves a
/// move list holds; nowhere when an index is out of range.
pub open spec fn follow(s: GameState, path: Seq<int>) -> Option<GameState>
    decreases path.len(),
{
    if path.len() == 0 {
        Some(s)
    } else if 0 <= path[0] < capped(legal_moves(s)).len() {
        follow(child_of(s, path[0]), path.drop_first())
    } else {
        None
    }
}

/// `p` is reached from `s` by `j` legal moves, each among those a move list holds.
pub open spec fn reaches(s: GameState, j: nat, p: GameState) -> bool {
    exists|path: Seq<int>| path.len() == j && #[trigger] follow(s, path) == Some(p)
}

/// Two positions of the tree below `s`, `d` plies deep, share a cache key only when they are
/// the same position at the same ply.
pub open spec fn keys_apart(s: GameState, d: nat) -> bool {
    forall|j1: nat, j2: nat, p1: GameState, p2: GameState|
        j1 <= d && j2 <= d && #[trigger] reaches(s, j1, p1) && #[trigger] reaches(s, j2, p2) && state_key(p1)
            == state_key(p2) ==> j1 == j2 && p1 == p2
}

/// What a cache entry claims of the position `q`: its score, no further away than its depth,
/// bounds the negamax value of `q` at that depth as its class says.
pub open spec fn entry_sound(value: spec_fn(GameState, nat) -> EvaluationScore, e: TranspositionEntry, q: GameState, exact: bool) -> bool {
    let v = value(q, e.depth as nat);
    &&& e.score != EvaluationScore::Value(i32::MIN)
    &&& plies(e.score) <= e.depth
    &&& match e.bounds {
        HashEntryBounds::Exact => score_key(v, exact) == score_key(e.score, exact),
        HashEntryBounds::Lower => score_key(v, exact) >= score_key(e.score, exact),
        HashEntryBounds::Upper => score_key(v, exact) <= score_key(e.score, exact),
    }
}

/// The cache fits the tree below `s`: what it holds for a position `j` plies down was searched
/// at most `d - j` plies deep, and is sound.
pub open spec fn table_fits(
    value: spec_fn(GameState, nat) -> EvaluationScore,
    entries: Seq<Option<TranspositionEntry>>,
    mask: usize,
    s: GameState,
    d: nat,
    exact: bool,
) -> bool {
    forall|j: nat, p: GameState|
        j <= d && #[trigger] reaches(s, j, p) ==> match spec_lookup(entries, mask, p) {
            None => true,
            Some(e) => e.depth <= d - j && entry_sound(value, e, p, exact),
        }
}

/// Every entry the cache reads differently after the search is a sound result for a position
/// of the tree below `s` with the key looked up, searched as deep as the tree reaches below it.
pub open spec fn table_grows(
    value: spec_fn(GameState, nat) -> EvaluationScore,
    before: Seq<Option<TranspositionEntry>>,
    after: Seq<Option<TranspositionEntry>>,
    mask: usize,
    s: GameState,
    d: nat,
    exact: bool,
) -> bool {
    forall|p: GameState|
        #[trigger] spec_lookup(after, mask, p) is Some ==> spec_lookup(after, mask, p) == spec_lookup(before, mask, p)
            || exists|j: nat, q: GameState|
            j <= d && #[trigger] reaches(s, j, q) && state_key(q) == state_key(p)
                && spec_lookup(after, mask, p)->Some_0.depth == d - j && entry_sound(
                value,
                spec_lookup(after, mask, p)->Some_0,
                q,
                exact,
            )
}

/// The negamax values as a function of position and depth.
pub open spec fn negamax_values<E: PositionEvaluator>(ev: &E) -> spec_fn(GameState, nat) -> EvaluationScore {
    |q: GameState, d: nat| negamax_value(ev, q, d)
}

/// What the recursive search gives under its premises: the result stands in the fail-soft
/// relation with the negamax value (by rank when `exact`, by outcome else), is no lowest value,
/// has its forced results no further than the depth, and the cache
/// only gains sound results for positions of the tree below.
pub open spec fn search_result<E: PositionEvaluator>(
    ev: &E,
    r: EvaluationScore,
    before: Seq<Option<TranspositionEntry>>,
    after: Seq<Option<TranspositionEntry>>,
    mask: usize,
    s: GameState,
    depth: usize,
    alpha: EvaluationScore,
    beta: EvaluationScore,
    exact: bool,
) -> bool {
    &&& fail_soft(r, negamax_value(ev, s, depth as nat), alpha, beta, exact)
    &&& r != EvaluationScore::Value(i32::MIN)
    &&& plies(r) <= depth
    &&& table_grows(negamax_values(ev), before, after, mask, s, depth as nat, exact)
}

/// The conditions under which the search stands for the negamax value: nothing can stop it,
/// the evaluator reports no forced result but a loss now, the window is open and its forced
/// results are near enough that turning them around never wraps, the tree holds no position
/// twice under one key at different plies, and the cache fits the tree. Compared by rank
/// (`exact`), the window is moreover bounded by two values.
pub open spec fn search_premises<E: PositionEvaluator>(
    ev: &E,
    can_cancel: bool,
    entries: Seq<Option<TranspositionEntry>>,
    mask: usize,
    s: GameState,
    depth: nat,
    alpha: EvaluationScore,
    beta: EvaluationScore,
    exact: bool,
) -> bool {
    &&& !can_cancel
    &&& plain_leaves(ev)
    &&& alpha.rank() < beta.rank()
    &&& alpha != EvaluationScore::Value(i32::MIN)
    &&& beta != EvaluationScore::Value(i32::MIN)
    &&& depth <= 0x4000_0000
    &&& plies(alpha) + depth <= 0x8000_0000
    &&& plies(beta) + depth <= 0x8000_0000
    &&& keys_apart(s, depth)
    &&& exact ==> alpha is Value && beta is Value
    &&& table_fits(negamax_values(ev), entries, mask, s, depth, exact)
}

/// An empty cache fits every tree.
pub proof fn lemma_empty_table_fits(
    value: spec_fn(GameState, nat) -> EvaluationScore,
    entries: Seq<Option<TranspositionEntry>>,
    mask: usize,
    s: GameState,
    d: nat,
    exact: bool,
)
    requires
        entries.len() == mask + 1,
        forall|i: int| 0 <= i < entries.len() ==> entries[i] is None,
    ensures
        table_fits(value, entries, mask, s, d, exact),
{
    assert forall|j: nat, p: GameState| j <= d && #[trigger] reaches(s, j, p) implies spec_lookup(entries, mask, p)
        is None by {
        crate::tt::lemma_slot_in_range(state_key(p), mask);
    }
}

/// A search no deeper than the position itself meets the tree's conditions: nothing below
/// the root can clash with it.
pub proof fn lemma_root_keys_apart(s: GameState)
    ensures
        keys_apart(s, 0),
{
    assert forall|j1: nat, j2: nat, p1: GameState, p2: GameState|
        j1 <= 0 && j2 <= 0 && #[trigger] reaches(s, j1, p1) && #[trigger] reaches(s, j2, p2) && state_key(p1)
            == state_key(p2) implies j1 == j2 && p1 == p2 by {
        lemma_reaches_root(s, p1);
        lemma_reaches_root(s, p2);
    }
}

/// The best score ranks at or above each score and a loss now, and is one of them or a loss
/// now.
proof fn lemma_best_score_bounds(xs: Seq<EvaluationScore>)
    ensures
        EvaluationScore::Mated(0).rank() <= best_score(xs).rank(),
        forall|i: int| 0 <= i < xs.len() ==> (#[trigger] xs[i]).rank() <= best_score(xs).rank(),
        best_score(xs) == EvaluationScore::Mated(0) || exists|i: int| 0 <= i < xs.len() && best_score(xs) == #[trigger] xs[i],
    decreases xs.len(),
{
    if xs.len() > 0 {
        let ys = xs.drop_last();
        lemma_best_score_bounds(ys);
        assert forall|i: int| 0 <= i < xs.len() implies (#[trigger] xs[i]).rank() <= best_score(xs).rank() by {
            if i < xs.len() - 1 {
                assert(xs[i] == ys[i]);
            }
        }
        if best_score(xs) != EvaluationScore::Mated(0) {
            if best_score(xs) == xs.last() {
                assert(xs[xs.len() - 1] == xs.last());
            } else {
                let i = choose|i: int| 0 <= i < ys.len() && best_score(ys) == #[trigger] ys[i];
                assert(xs[i] == ys[i]);
            }
        }
    }
}

/// Lists that hold the same scores, each found in the other, have the same best score.
proof fn lemma_best_score_same(xs: Seq<EvaluationScore>, ys: Seq<EvaluationScore>)
    requires
        forall|i: int| 0 <= i < xs.len() ==> ys.contains(#[trigger] xs[i]),
        forall|i: int| 0 <= i < ys.len() ==> xs.contains(#[trigger] ys[i]),
    ensures
        best_score(xs) == best_score(ys),
{
    lemma_best_score_bounds(xs);
    lemma_best_score_bounds(ys);
    let bx = best_score(xs);
    let by = best_score(ys);
    if bx != EvaluationScore::Mated(0) {
        let i = choose|i: int| 0 <= i < xs.len() && bx == #[trigger] xs[i];
        assert(ys.contains(xs[i]));
        let k = choose|k: int| 0 <= k < ys.len() && ys[k] == xs[i];
        assert(ys[k].rank() <= by.rank());
    }
    if by != EvaluationScore::Mated(0) {
        let i = choose|i: int| 0 <= i < ys.len() && by == #[trigger] ys[i];
        assert(xs.contains(ys[i]));
        let k = choose|k: int| 0 <= k < xs.len() && xs[k] == ys[i];
        assert(xs[k].rank() <= bx.rank());
    }
    crate::score::lemma_rank_injective(bx, by);
}

/// The best of a prefix one longer takes the next score when it ranks strictly higher.
proof fn lemma_best_score_extend(xs: Seq<EvaluationScore>, i: int)
    requires
        0 <= i < xs.len(),
    ensures
        best_score(xs.take(i + 1)) == if xs[i].rank() > best_score(xs.take(i)).rank() {
            xs[i]
        } else {
            best_score(xs.take(i))
        },
{
    assert(xs.take(i + 1).drop_last() =~= xs.take(i));
}

/// Turning a score around flips its outcome, for every score but the lowest value.
proof fn lemma_outcome_invert(x: EvaluationScore)
    requires
        x != EvaluationScore::Value(i32::MIN),
    ensures
        outcome(spec_invert_score(x)) == -outcome(x),
        spec_invert_score(x) != EvaluationScore::Value(i32::MIN),
{
}

/// A score that ranks lower has no higher key.
proof fn lemma_key_monotone(x: EvaluationScore, y: EvaluationScore, exact: bool)
    ensures
        x.rank() <= y.rank() ==> score_key(x, exact) <= score_key(y, exact),
{
}

/// A score ranked strictly between two values is a value.
proof fn lemma_between_values(a: EvaluationScore, x: EvaluationScore, b: EvaluationScore)
    requires
        a is Value,
        b is Value,
        a.rank() <= x.rank() <= b.rank(),
    ensures
        x is Value,
{
}

/// What the search laws compare scores by: their rank when `exact`, else their outcome.
pub open spec fn score_key(x: EvaluationScore, exact: bool) -> int {
    if exact {
        x.rank()
    } else {
        outcome(x)
    }
}

/// A child searched with the window turned around gives, turned around, the fail-soft
/// relation in the parent's window.
proof fn lemma_child_window(rc: EvaluationScore, vc: EvaluationScore, a: EvaluationScore, b: EvaluationScore, exact: bool)
    requires
        a.rank() < b.rank(),
        a != EvaluationScore::Value(i32::MIN),
        b != EvaluationScore::Value(i32::MIN),
        rc != EvaluationScore::Value(i32::MIN),
        vc != EvaluationScore::Value(i32::MIN),
        a.invertible(),
        b.invertible(),
        rc.invertible(),
        vc.invertible(),
        exact ==> a is Value && b is Value,
        fail_soft(rc, vc, spec_invert_score(b), spec_invert_score(a), exact),
    ensures
        fail_soft(spec_invert_score(rc), spec_invert_score(vc), a, b, exact),
{
    if exact {
        let r = spec_invert_score(rc);
        let v = spec_invert_score(vc);
        let ia = spec_invert_score(a);
        let ib = spec_invert_score(b);
        assert(spec_invert_score(ia) == a && spec_invert_score(ib) == b);
        if r.rank() <= a.rank() {
            if rc.rank() < ia.rank() {
                crate::score::lemma_invert_reverses_order(rc, ia);
            }
            crate::score::lemma_invert_reverses_order(rc, vc);
        }
        if r.rank() >= b.rank() {
            if ib.rank() < rc.rank() {
                crate::score::lemma_invert_reverses_order(ib, rc);
            }
            crate::score::lemma_invert_reverses_order(vc, rc);
        }
        if a.rank() < r.rank() < b.rank() {
            if rc.rank() >= ia.rank() {
                crate::score::lemma_invert_reverses_order(ia, rc);
            }
            if rc.rank() <= ib.rank() {
                crate::score::lemma_invert_reverses_order(rc, ib);
            }
            crate::score::lemma_rank_injective(rc, vc);
        }
    } else {
        match rc {
            EvaluationScore::Mated(_) => {},
            EvaluationScore::Value(_) => {},
            EvaluationScore::Mating(_) => {},
        }
        match a {
            EvaluationScore::Mated(_) => {},
            EvaluationScore::Value(_) => {},
            EvaluationScore::Mating(_) => {},
        }
    }
}

/// The negamax value is never the lowest value, and its forced results are at most `d` plies
/// away.
proof fn lemma_value_shape<E: PositionEvaluator>(ev: &E, s: GameState, d: nat)
    requires
        plain_leaves(ev),
        d < 0xffff_ffff,
    ensures
        negamax_value(ev, s, d) != EvaluationScore::Value(i32::MIN),
        0 <= plies(negamax_value(ev, s, d)) <= d,
    decreases d,
{
    if d == 0 {
        assert((ev.spec_evaluate(s) is Value && ev.spec_evaluate(s) != EvaluationScore::Value(i32::MIN))
            || ev.spec_evaluate(s) == EvaluationScore::Mated(0));
    } else if legal_moves(s).len() > 0 {
        let xs = child_values(ev, s, d, capped(legal_moves(s)));
        lemma_value_unfold(ev, s, d);
        lemma_best_score_bounds(xs);
        if best_score(xs) != EvaluationScore::Mated(0) {
            let i = choose|i: int| 0 <= i < xs.len() && best_score(xs) == #[trigger] xs[i];
            let c = spec_make_move(s, capped(legal_moves(s))[i]);
            lemma_value_shape(ev, c, (d - 1) as nat);
            lemma_outcome_invert(negamax_value(ev, c, (d - 1) as nat));
        }
    }
}

/// The children in search order hold the same values as in generation order, so their best
/// is the negamax value.
proof fn lemma_search_order_value<E: PositionEvaluator>(ev: &E, s: GameState, d: nat, ms: Seq<Move>)
    requires
        d > 0,
        legal_moves(s).len() > 0,
        ms.to_multiset() == capped(legal_moves(s)).to_multiset(),
    ensures
        best_score(child_values(ev, s, d, ms)) == negamax_value(ev, s, d),
{
    broadcast use vstd::seq_lib::group_to_multiset_ensures;

    let cs = capped(legal_moves(s));
    let xs = child_values(ev, s, d, ms);
    let ys = child_values(ev, s, d, cs);
    assert forall|i: int| 0 <= i < xs.len() implies ys.contains(#[trigger] xs[i]) by {
        assert(ms.contains(ms[i]));
        assert(cs.to_multiset().count(ms[i]) > 0);
        let k = choose|k: int| 0 <= k < cs.len() && cs[k] == ms[i];
        assert(ys[k] == xs[i]);
    }
    assert forall|i: int| 0 <= i < ys.len() implies xs.contains(#[trigger] ys[i]) by {
        assert(cs.contains(cs[i]));
        assert(ms.to_multiset().count(cs[i]) > 0);
        let k = choose|k: int| 0 <= k < ms.len() && ms[k] == cs[i];
        assert(xs[k] == ys[i]);
    }
    lemma_best_score_same(xs, ys);
    lemma_value_unfold(ev, s, d);
}

/// A position reached from a child is reached from the parent one ply further down.
proof fn lemma_reaches_child(s: GameState, m: Move, j: nat, p: GameState)
    requires
        capped(legal_moves(s)).contains(m),
        reaches(spec_make_move(s, m), j, p),
    ensures
        reaches(s, j + 1, p),
{
    let k = choose|k: int| 0 <= k < capped(legal_moves(s)).len() && capped(legal_moves(s))[k] == m;
    assert(child_of(s, k) == spec_make_move(s, m));
    let path = choose|path: Seq<int>| path.len() == j && #[trigger] follow(spec_make_move(s, m), path) == Some(p);
    let longer = seq![k] + path;
    assert(longer.drop_first() =~= path);
    assert(follow(s, longer) == Some(p));
}

/// The root is reached in no moves, and a position reached in no moves is the root.
proof fn lemma_reaches_root(s: GameState, p: GameState)
    ensures
        reaches(s, 0, s),
        reaches(s, 0, p) ==> p == s,
{
    assert(follow(s, Seq::<int>::empty()) == Some(s));
}

/// An expanded node's negamax value is the best of its children's values in generation order.
proof fn lemma_value_unfold<E: PositionEvaluator>(ev: &E, s: GameState, d: nat)
    requires
        d > 0,
        legal_moves(s).len() > 0,
    ensures
        negamax_value(ev, s, d) == best_score(child_values(ev, s, d, capped(legal_moves(s)))),
{
}

/// The best of a prefix ranks at or below the best of the whole list.
proof fn lemma_best_score_prefix(xs: Seq<EvaluationScore>, k: int)
    requires
        0 <= k <= xs.len(),
    ensures
        best_score(xs.take(k)).rank() <= best_score(xs).rank(),
{
    lemma_best_score_bounds(xs);
    lemma_best_score_bounds(xs.take(k));
    if best_score(xs.take(k)) != EvaluationScore::Mated(0) {
        let i = choose|i: int| 0 <= i < xs.take(k).len() && best_score(xs.take(k)) == #[trigger] xs.take(k)[i];
        assert(xs.take(k)[i] == xs[i]);
    }
}

/// One child of the loop: with the running best `m`, the raised alpha `a` and the best `mi` of
/// the children's values so far, a child result `rp` in the fail-soft relation with its value
/// `v` keeps the loop's account of the children searched.
proof fn lemma_loop_step(
    a0: EvaluationScore,
    b: EvaluationScore,
    m: EvaluationScore,
    a: EvaluationScore,
    rp: EvaluationScore,
    v: EvaluationScore,
    mi: EvaluationScore,
    exact: bool,
)
    requires
        a0.rank() < b.rank(),
        a == (if m.rank() > a0.rank() {
            m
        } else {
            a0
        }),
        a.rank() < b.rank(),
        m.rank() <= a0.rank() ==> score_key(mi, exact) <= score_key(m, exact),
        m.rank() > a0.rank() ==> score_key(mi, exact) == score_key(m, exact),
        fail_soft(rp, v, a, b, exact),
    ensures
        ({
            let m2 = if rp.rank() > m.rank() {
                rp
            } else {
                m
            };
            let a2 = if m2.rank() > a.rank() {
                m2
            } else {
                a
            };
            let mi2 = if v.rank() > mi.rank() {
                v
            } else {
                mi
            };
            &&& a2 == (if m2.rank() > a0.rank() {
                m2
            } else {
                a0
            })
            &&& a2.rank() >= b.rank() ==> m2.rank() >= b.rank() && score_key(mi2, exact) >= score_key(m2, exact)
            &&& a2.rank() < b.rank() ==> (m2.rank() <= a0.rank() ==> score_key(mi2, exact) <= score_key(m2, exact)) && (m2.rank()
                > a0.rank() ==> score_key(mi2, exact) == score_key(m2, exact))
        }),
{
    lemma_key_monotone(v, mi, exact);
    lemma_key_monotone(mi, v, exact);
    lemma_key_monotone(rp, m, exact);
    lemma_key_monotone(m, rp, exact);
    lemma_key_monotone(rp, a, exact);
    lemma_key_monotone(m, a, exact);
}

/// The tree below a child holds no clashing keys when the tree below the parent holds none.
proof fn lemma_keys_apart_child(s: GameState, m: Move, d: nat)
    requires
        d > 0,
        keys_apart(s, d),
        capped(legal_moves(s)).contains(m),
    ensures
        keys_apart(spec_make_move(s, m), (d - 1) as nat),
{
    let c = spec_make_move(s, m);
    assert forall|j1: nat, j2: nat, p1: GameState, p2: GameState|
        j1 <= d - 1 && j2 <= d - 1 && #[trigger] reaches(c, j1, p1) && #[trigger] reaches(c, j2, p2) && state_key(p1)
            == state_key(p2) implies j1 == j2 && p1 == p2 by {
        lemma_reaches_child(s, m, j1, p1);
        lemma_reaches_child(s, m, j2, p2);
        assert(reaches(s, j1 + 1, p1) && reaches(s, j2 + 1, p2));
    }
}

/// What the cache holds fits the tree below a child, when it fitted the parent's tree before
/// the search of the earlier children and changed only for positions of the parent's tree.
proof fn lemma_fits_child(
    value: spec_fn(GameState, nat) -> EvaluationScore,
    before: Seq<Option<TranspositionEntry>>,
    now: Seq<Option<TranspositionEntry>>,
    mask: usize,
    s: GameState,
    m: Move,
    d: nat,
    exact: bool,
)
    requires
        d > 0,
        keys_apart(s, d),
        table_fits(value, before, mask, s, d, exact),
        table_grows(value, before, now, mask, s, d, exact),
        capped(legal_moves(s)).contains(m),
    ensures
        table_fits(value, now, mask, spec_make_move(s, m), (d - 1) as nat, exact),
{
    let c = spec_make_move(s, m);
    assert forall|j: nat, p: GameState| j <= d - 1 && #[trigger] reaches(c, j, p) implies match spec_lookup(
        now,
        mask,
        p,
    ) {
        None => true,
        Some(e) => e.depth <= (d - 1) as nat - j && entry_sound(value, e, p, exact),
    } by {
        lemma_reaches_child(s, m, j, p);
        assert(reaches(s, j + 1, p));
        if spec_lookup(now, mask, p) is Some {
            if spec_lookup(now, mask, p) != spec_lookup(before, mask, p) {
                let (j2, q) = choose|j2: nat, q: GameState|
                    j2 <= d && #[trigger] reaches(s, j2, q) && state_key(q) == state_key(p)
                        && spec_lookup(now, mask, p)->Some_0.depth == d - j2 && entry_sound(
                        value,
                        spec_lookup(now, mask, p)->Some_0,
                        q,
                        exact,
                    );
                assert(j2 == j + 1 && q == p);
            }
        }
    }
}

/// Changes made below a child are changes made below the parent, one ply further down.
proof fn lemma_grows_compose(
    value: spec_fn(GameState, nat) -> EvaluationScore,
    before: Seq<Option<TranspositionEntry>>,
    mid: Seq<Option<TranspositionEntry>>,
    after: Seq<Option<TranspositionEntry>>,
    mask: usize,
    s: GameState,
    m: Move,
    d: nat,
    exact: bool,
)
    requires
        d > 0,
        table_grows(value, before, mid, mask, s, d, exact),
        table_grows(value, mid, after, mask, spec_make_move(s, m), (d - 1) as nat, exact),
        capped(legal_moves(s)).contains(m),
    ensures
        table_grows(value, before, after, mask, s, d, exact),
{
    let c = spec_make_move(s, m);
    assert forall|p: GameState| #[trigger] spec_lookup(after, mask, p) is Some implies spec_lookup(after, mask, p)
        == spec_lookup(before, mask, p) || exists|j: nat, q: GameState|
        j <= d && #[trigger] reaches(s, j, q) && state_key(q) == state_key(p) && spec_lookup(after, mask, p)->Some_0.depth
            == d - j && entry_sound(value, spec_lookup(after, mask, p)->Some_0, q, exact) by {
        if spec_lookup(after, mask, p) != spec_lookup(mid, mask, p) {
            let (j, q) = choose|j: nat, q: GameState|
                j <= d - 1 && #[trigger] reaches(c, j, q) && state_key(q) == state_key(p)
                    && spec_lookup(after, mask, p)->Some_0.depth == (d - 1) as nat - j && entry_sound(
                    value,
                    spec_lookup(after, mask, p)->Some_0,
                    q,
                    exact,
                );
            lemma_reaches_child(s, m, j, q);
            assert(reaches(s, j + 1, q));
        } else {
            assert(spec_lookup(mid, mask, p) is Some);
        }
    }
}

/// What a cache hit settles a node with stands for the node's negamax value, when the entry
/// was searched exactly as deep and is sound.
proof fn lemma_cutoff_sound(
    value: spec_fn(GameState, nat) -> EvaluationScore,
    e: TranspositionEntry,
    s: GameState,
    d: usize,
    alpha: EvaluationScore,
    beta: EvaluationScore,
    exact: bool,
)
    requires
        alpha.rank() < beta.rank(),
        e.depth <= d,
        entry_sound(value, e, s, exact),
        spec_tt_cutoff(Some(e), d, alpha, beta) is Some,
    ensures
        fail_soft(spec_tt_cutoff(Some(e), d, alpha, beta)->Some_0, value(s, d as nat), alpha, beta, exact),
        spec_tt_cutoff(Some(e), d, alpha, beta)->Some_0 != EvaluationScore::Value(i32::MIN),
        plies(spec_tt_cutoff(Some(e), d, alpha, beta)->Some_0) <= d,
{
}

/// Storing a result for `s` changes only what a lookup with the key of `s` reads, and that
/// lookup reads the stored entry.
proof fn lemma_store_reads(
    entries: Seq<Option<TranspositionEntry>>,
    mask: usize,
    s: GameState,
    score: EvaluationScore,
    depth: usize,
    bounds: HashEntryBounds,
    p: GameState,
)
    requires
        entries.len() == mask + 1,
    ensures
        spec_lookup(spec_store(entries, mask, s, score, depth, bounds), mask, p) == spec_lookup(entries, mask, p) || (
        state_key(p) == state_key(s) && spec_lookup(spec_store(entries, mask, s, score, depth, bounds), mask, p)
            == Some(TranspositionEntry { state_key: state_key(s), score, depth, bounds })) || spec_lookup(
            spec_store(entries, mask, s, score, depth, bounds),
            mask,
            p,
        ) is None,
{
    crate::tt::lemma_slot_in_range(state_key(s), mask);
    crate::tt::lemma_slot_in_range(state_key(p), mask);
}

// ============================================================================
// RECURSIVE SEARCH
// ============================================================================

/// The score a node is settled with without expanding it: a cache hit that decides it, the
/// evaluator at the depth limit, or a loss without legal moves.
pub open spec fn leaf_score<E: PositionEvaluator>(
    evaluator: &E,
    entries: Seq<Option<crate::tt::TranspositionEntry>>,
    mask: usize,
    s: GameState,
    depth: usize,
    alpha: EvaluationScore,
    beta: EvaluationScore,
) -> Option<EvaluationScore> {
    match spec_tt_cutoff(spec_lookup(entries, mask, s), depth, alpha, beta) {
        Some(c) => Some(c),
        None => if depth == 0 {
            Some(evaluator.spec_evaluate(s))
        } else if crate::state::legal_moves(s).len() == 0 {
            Some(EvaluationScore::Mated(0))
        } else {
            None
        },
    }
}

/// Alpha-beta negamax by recursion: settles the node from the cache, at the depth limit or
/// without moves; else searches its moves in order, each with the window turned around, stops
/// once alpha reaches beta, caches the best score with its bound class and returns it. A
/// cancelled search returns a void zero (only a signal that can cancel stops it).
///
/// Under `search_premises` the result stands for the negamax value of the position in the
/// fail-soft sense (a value is exact, a forced result keeps its side), and every entry the
/// search leaves in the cache is a sound result for a position of the tree below. When the
/// window is bounded by two values the relation holds by rank: inside the window the result
/// is the negamax value itself, forced results with their ply counts, and outside it the
/// result bounds that value by rank: from above at or below alpha, from below at or above
/// beta.
#[verifier::rlimit(60)]
pub fn negamax<E: PositionEvaluator, C: CancelSignal, T: SearchTelemetry>(
    ctx: &SearchContext<E, C>,
    telemetry: &T,
    tt: &mut TranspositionTable,
    state: &GameState,
    depth: usize,
    alpha: EvaluationScore,
    beta: EvaluationScore,
) -> (r: EvaluationScore)
    requires
        ctx.ready(),
        old(tt).wf(),
    ensures
        final(tt).wf(),
        final(tt).index_mask() == old(tt).index_mask(),
        (ctx.cancelled.can_cancel() && r == EvaluationScore::Value(0) && final(tt).entries() == old(
            tt,
        ).entries()) || match leaf_score(
            ctx.evaluator,
            old(tt).entries(),
            old(tt).index_mask(),
            *state,
            depth,
            alpha,
            beta,
        ) {
            Some(v) => r == v && final(tt).entries() == old(tt).entries(),
            None => exists|searched: Seq<Option<crate::tt::TranspositionEntry>>|
                searched.len() == old(tt).entries().len() && final(tt).entries() == spec_store(
                    searched,
                    old(tt).index_mask(),
                    *state,
                    r,
                    depth,
                    spec_bounds_class(r, alpha, beta),
                ),
        },
        search_premises(
            ctx.evaluator,
            ctx.cancelled.can_cancel(),
            old(tt).entries(),
            old(tt).index_mask(),
            *state,
            depth as nat,
            alpha,
            beta,
            false,
        ) ==> search_result(ctx.evaluator, r, old(tt).entries(), final(tt).entries(), old(tt).index_mask(), *state, depth, alpha, beta, false),
        search_premises(
            ctx.evaluator,
            ctx.cancelled.can_cancel(),
            old(tt).entries(),
            old(tt).index_mask(),
            *state,
            depth as nat,
            alpha,
            beta,
            true,
        ) ==> search_result(ctx.evaluator, r, old(tt).entries(), final(tt).entries(), old(tt).index_mask(), *state, depth, alpha, beta, true),
    decreases depth,
{
    let ghost ev = ctx.evaluator;
    let ghost value = negamax_values(ev);
    let ghost entries0 = tt.entries();
    let ghost mask = tt.index_mask();
    let ghost exact = search_premises(ev, ctx.cancelled.can_cancel(), entries0, mask, *state, depth as nat, alpha, beta, true);
    let ghost law = search_premises(ev, ctx.cancelled.can_cancel(), entries0, mask, *state, depth as nat, alpha, beta, exact);
    telemetry.record_node_explored();
    if ctx.cancelled.is_cancelled() {
        return EvaluationScore::Value(0);
    }
    let original_alpha = alpha;
    let mut alpha = alpha;
    match evaluate_tt_cache(state, tt, depth, alpha, beta) {
        Some(cached) => {
            proof {
                if law {
                    lemma_reaches_root(*state, *state);
                    assert(reaches(*state, 0, *state));
                    let e = spec_lookup(entries0, mask, *state)->Some_0;
                    lemma_cutoff_sound(value, e, *state, depth, alpha, beta, exact);
                }
            }
            return cached;
        },
        None => {},
    }
    if depth == 0 {
        let v = ctx.evaluator.evaluate(state);
        proof {
            if law {
                assert(plain_leaves(ev));
                assert((ev.spec_evaluate(*state) is Value && ev.spec_evaluate(*state) != EvaluationScore::Value(i32::MIN))
                    || ev.spec_evaluate(*state) == EvaluationScore::Mated(0));
            }
        }
        return v;
    }
    let legal_moves = generate_and_order_moves(state, depth, ctx.luts);
    if legal_moves.is_empty() {
        return EvaluationScore::Mated(0);
    }
    proof {
        assert(crate::state::legal_moves(*state).len() > 0);
    }
    let ghost vals = child_values(ev, *state, depth as nat, legal_moves@);
    proof {
        if law {
            lemma_search_order_value(ev, *state, depth as nat, legal_moves@);
            assert(vals.take(0) =~= Seq::<EvaluationScore>::empty());
        }
        if legal_moves@.len() == 0 {
            assert(vals.take(0) =~= vals);
        }
    }
    let mut max_score = EvaluationScore::Mated(0);
    let mut i: usize = 0;
    while i < legal_moves.len()
        invariant_except_break
            law ==> alpha.rank() < beta.rank(),
            law ==> alpha == (if max_score.rank() > original_alpha.rank() {
                max_score
            } else {
                original_alpha
            }),
            law ==> (max_score.rank() <= original_alpha.rank() ==> score_key(best_score(vals.take(i as int)), exact) <= score_key(
                max_score,
                exact,
            )),
            law ==> (max_score.rank() > original_alpha.rank() ==> score_key(best_score(vals.take(i as int)), exact) == score_key(
                max_score,
                exact,
            )),
            i == legal_moves@.len() ==> vals.take(i as int) == vals,
        invariant
            ctx.ready(),
            tt.wf(),
            tt.index_mask() == mask,
            depth >= 1,
            i <= legal_moves@.len(),
            ev == ctx.evaluator,
            value == negamax_values(ev),
            law == search_premises(ev, ctx.cancelled.can_cancel(), entries0, mask, *state, depth as nat, original_alpha, beta, exact),
            legal_moves@.to_multiset() == capped(crate::state::legal_moves(*state)).to_multiset(),
            forall|k: int| 0 <= k < legal_moves@.len() ==> is_legal_move(*state, #[trigger] legal_moves@[k]),
            vals == child_values(ev, *state, depth as nat, legal_moves@),
            law ==> best_score(vals) == negamax_value(ev, *state, depth as nat),
            vals.len() == legal_moves@.len(),
            law ==> max_score != EvaluationScore::Value(i32::MIN) && 0 <= plies(max_score) <= depth,
            law ==> table_grows(value, entries0, tt.entries(), mask, *state, depth as nat, exact),
        ensures
            law ==> fail_soft(max_score, negamax_value(ev, *state, depth as nat), original_alpha, beta, exact),
            law ==> max_score != EvaluationScore::Value(i32::MIN) && 0 <= plies(max_score) <= depth,
            law ==> table_grows(value, entries0, tt.entries(), mask, *state, depth as nat, exact),
        decreases legal_moves@.len() - i,
    {
        let current_move = legal_moves.get(i);
        let mut next_state = *state;
        next_state.make_move(current_move);
        let ghost before = tt.entries();
        let ghost child = spec_make_move(*state, current_move);
        proof {
            broadcast use vstd::seq_lib::group_to_multiset_ensures;

            assert(legal_moves@.contains(current_move));
            assert(capped(crate::state::legal_moves(*state)).to_multiset().count(current_move) > 0);
            assert(capped(crate::state::legal_moves(*state)).contains(current_move));
            if law {
                lemma_keys_apart_child(*state, current_move, depth as nat);
                lemma_fits_child(value, entries0, before, mask, *state, current_move, depth as nat, exact);
                if exact {
                    lemma_between_values(original_alpha, alpha, beta);
                }
                crate::score::lemma_invert_reverses_order(alpha, beta);
                lemma_outcome_invert(alpha);
                lemma_outcome_invert(beta);
                assert(search_premises(
                    ev,
                    ctx.cancelled.can_cancel(),
                    before,
                    mask,
                    child,
                    (depth - 1) as nat,
                    spec_invert_score(beta),
                    spec_invert_score(alpha),
                    exact,
                ));
            }
        }
        let raw_score = negamax(ctx, telemetry, tt, &next_state, depth - 1, invert_score(beta), invert_score(alpha));
        let relative_score = invert_score(raw_score);
        let ghost m0 = max_score;
        let ghost a0 = alpha;
        proof {
            if law {
                lemma_grows_compose(value, entries0, before, tt.entries(), mask, *state, current_move, depth as nat, exact);
                lemma_value_shape(ev, child, (depth - 1) as nat);
                lemma_child_window(raw_score, negamax_value(ev, child, (depth - 1) as nat), alpha, beta, exact);
                lemma_outcome_invert(raw_score);
                assert(vals[i as int] == spec_invert_score(negamax_value(ev, child, (depth - 1) as nat)));
                lemma_loop_step(
                    original_alpha,
                    beta,
                    max_score,
                    alpha,
                    relative_score,
                    vals[i as int],
                    best_score(vals.take(i as int)),
                    exact,
                );
                lemma_best_score_extend(vals, i as int);
            }
        }
        if relative_score.gt(&max_score) {
            max_score = relative_score;
        }
        if max_score.gt(&alpha) {
            alpha = max_score;
        }
        if alpha.ge(&beta) {
            proof {
                if law {
                    lemma_best_score_prefix(vals, i + 1);
                    lemma_key_monotone(best_score(vals.take(i + 1)), best_score(vals), exact);
                }
            }
            break;
        }
        i = i + 1;
        proof {
            if i == legal_moves@.len() {
                assert(vals.take(i as int) =~= vals);
            }
        }
    }
    let ghost searched = tt.entries();
    proof {
        tt.lemma_wf_len();
    }
    commit_node_to_tt(state, tt, max_score, original_alpha, beta, depth);
    proof {
        assert(searched.len() == old(tt).entries().len()) by {
            old(tt).lemma_wf_len();
        }
        if law {
            let class = spec_bounds_class(max_score, original_alpha, beta);
            let entry = TranspositionEntry { state_key: state_key(*state), score: max_score, depth, bounds: class };
            assert(entry_sound(value, entry, *state, exact));
            lemma_reaches_root(*state, *state);
            assert forall|p: GameState| #[trigger] spec_lookup(tt.entries(), mask, p) is Some implies spec_lookup(
                tt.entries(),
                mask,
                p,
            ) == spec_lookup(entries0, mask, p) || exists|j: nat, q: GameState|
                j <= depth && #[trigger] reaches(*state, j, q) && state_key(q) == state_key(p) && spec_lookup(
                    tt.entries(),
                    mask,
                    p,
                )->Some_0.depth == depth - j && entry_sound(value, spec_lookup(tt.entries(), mask, p)->Some_0, q, exact) by {
                lemma_store_reads(searched, mask, *state, max_score, depth, class, p);
                if spec_lookup(tt.entries(), mask, p) == spec_lookup(searched, mask, p) {
                } else {
                    assert(reaches(*state, 0, *state));
                }
            }
        }
    }
    max_score
}

// ============================================================================
// THE VALUE THE MACHINE STANDS FOR
// ============================================================================

/// The value a node of the machine stands for: a loss now without legal moves, the evaluation
/// at the depth limit, else the best of the children's values turned around.
pub open spec fn node_value<E: PositionEvaluator>(ev: &E, s: GameState, d: nat) -> EvaluationScore
    decreases d, 1int,
{
    if legal_moves(s).len() == 0 {
        EvaluationScore::Mated(0)
    } else if d == 0 {
        ev.spec_evaluate(s)
    } else {
        best_score(node_children(ev, s, d, capped(legal_moves(s))))
    }
}

/// The children's node values `d - 1` plies deep, turned around, in the order `ms` lists the
/// moves.
pub open spec fn node_children<E: PositionEvaluator>(ev: &E, s: GameState, d: nat, ms: Seq<Move>) -> Seq<
    EvaluationScore,
>
    decreases d, 0int,
{
    if d == 0 {
        Seq::empty()
    } else {
        ms.map_values(|m: Move| spec_invert_score(node_value(ev, spec_make_move(s, m), (d - 1) as nat)))
    }
}

/// The node values as a function of position and depth.
pub open spec fn node_values<E: PositionEvaluator>(ev: &E) -> spec_fn(GameState, nat) -> EvaluationScore {
    |q: GameState, d: nat| node_value(ev, q, d)
}

proof fn lemma_node_shape<E: PositionEvaluator>(ev: &E, s: GameState, d: nat)
    requires
        plain_leaves(ev),
        d < 0xffff_ffff,
    ensures
        node_value(ev, s, d) != EvaluationScore::Value(i32::MIN),
        0 <= plies(node_value(ev, s, d)) <= d,
    decreases d,
{
    if legal_moves(s).len() == 0 {
    } else if d == 0 {
        assert((ev.spec_evaluate(s) is Value && ev.spec_evaluate(s) != EvaluationScore::Value(i32::MIN))
            || ev.spec_evaluate(s) == EvaluationScore::Mated(0));
    } else {
        let xs = node_children(ev, s, d, capped(legal_moves(s)));
        lemma_best_score_bounds(xs);
        if best_score(xs) != EvaluationScore::Mated(0) {
            let i = choose|i: int| 0 <= i < xs.len() && best_score(xs) == #[trigger] xs[i];
            let c = spec_make_move(s, capped(legal_moves(s))[i]);
            lemma_node_shape(ev, c, (d - 1) as nat);
            lemma_outcome_invert(node_value(ev, c, (d - 1) as nat));
        }
    }
}

proof fn lemma_node_search_order<E: PositionEvaluator>(ev: &E, s: GameState, d: nat, ms: Seq<Move>)
    requires
        d > 0,
        legal_moves(s).len() > 0,
        ms.to_multiset() == capped(legal_moves(s)).to_multiset(),
    ensures
        best_score(node_children(ev, s, d, ms)) == node_value(ev, s, d),
{
    broadcast use vstd::seq_lib::group_to_multiset_ensures;

    let cs = capped(legal_moves(s));
    let xs = node_children(ev, s, d, ms);
    let ys = node_children(ev, s, d, cs);
    assert forall|i: int| 0 <= i < xs.len() implies ys.contains(#[trigger] xs[i]) by {
        assert(ms.contains(ms[i]));
        assert(cs.to_multiset().count(ms[i]) > 0);
        let k = choose|k: int| 0 <= k < cs.len() && cs[k] == ms[i];
        assert(ys[k] == xs[i]);
    }
    assert forall|i: int| 0 <= i < ys.len() implies xs.contains(#[trigger] ys[i]) by {
        assert(cs.contains(cs[i]));
        assert(ms.to_multiset().count(cs[i]) > 0);
        let k = choose|k: int| 0 <= k < ms.len() && ms[k] == cs[i];
        assert(xs[k] == ys[i]);
    }
    lemma_best_score_same(xs, ys);
}

/// A cache that fitted the tree below `s` and changed only inside it still fits it.
proof fn lemma_fits_now(
    value: spec_fn(GameState, nat) -> EvaluationScore,
    before: Seq<Option<TranspositionEntry>>,
    now: Seq<Option<TranspositionEntry>>,
    mask: usize,
    s: GameState,
    d: nat,
)
    requires
        keys_apart(s, d),
        table_fits(value, before, mask, s, d, false),
        table_grows(value, before, now, mask, s, d, false),
    ensures
        table_fits(value, now, mask, s, d, false),
{
    assert forall|j: nat, p: GameState| j <= d && #[trigger] reaches(s, j, p) implies match spec_lookup(now, mask, p) {
        None => true,
        Some(e) => e.depth <= d - j && entry_sound(value, e, p, false),
    } by {
        if spec_lookup(now, mask, p) is Some {
            if spec_lookup(now, mask, p) != spec_lookup(before, mask, p) {
                let (j2, q) = choose|j2: nat, q: GameState|
                    j2 <= d && #[trigger] reaches(s, j2, q) && state_key(q) == state_key(p)
                        && spec_lookup(now, mask, p)->Some_0.depth == d - j2 && entry_sound(
                        value,
                        spec_lookup(now, mask, p)->Some_0,
                        q,
                        false,
                    );
                assert(j2 == j && q == p);
            }
        }
    }
}

/// Storing a node's result, sound for the node in the bound class its window gives it, keeps
/// the account of what the search changed.
proof fn lemma_grows_store(
    value: spec_fn(GameState, nat) -> EvaluationScore,
    before: Seq<Option<TranspositionEntry>>,
    now: Seq<Option<TranspositionEntry>>,
    mask: usize,
    s: GameState,
    d: usize,
    r: EvaluationScore,
    alpha: EvaluationScore,
    beta: EvaluationScore,
)
    requires
        now.len() == mask + 1,
        alpha.rank() < beta.rank(),
        table_grows(value, before, now, mask, s, d as nat, false),
        fail_soft(r, value(s, d as nat), alpha, beta, false),
        r != EvaluationScore::Value(i32::MIN),
        plies(r) <= d,
    ensures
        table_grows(value, before, spec_store(now, mask, s, r, d, spec_bounds_class(r, alpha, beta)), mask, s, d as nat, false),
{
    let class = spec_bounds_class(r, alpha, beta);
    let after = spec_store(now, mask, s, r, d, class);
    let entry = TranspositionEntry { state_key: state_key(s), score: r, depth: d, bounds: class };
    assert(entry_sound(value, entry, s, false));
    lemma_reaches_root(s, s);
    assert forall|p: GameState| #[trigger] spec_lookup(after, mask, p) is Some implies spec_lookup(after, mask, p)
        == spec_lookup(before, mask, p) || exists|j: nat, q: GameState|
        j <= d && #[trigger] reaches(s, j, q) && state_key(q) == state_key(p) && spec_lookup(after, mask, p)->Some_0.depth
            == d - j && entry_sound(value, spec_lookup(after, mask, p)->Some_0, q, false) by {
        lemma_store_reads(now, mask, s, r, d, class, p);
        if spec_lookup(after, mask, p) == spec_lookup(now, mask, p) {
        } else {
            assert(reaches(s, 0, s));
        }
    }
}

/// The premises under which the machine stands for the node values: nothing can stop it, the
/// evaluator reports no forced result but a loss now, the depth is one a ply count can hold
/// twice over, the tree holds no position twice under one key at different plies, and the
/// cache fits the tree.
pub open spec fn machine_premises<E: PositionEvaluator>(
    ev: &E,
    can_cancel: bool,
    entries: Seq<Option<TranspositionEntry>>,
    mask: usize,
    root: GameState,
    depth: nat,
) -> bool {
    &&& !can_cancel
    &&& plain_leaves(ev)
    &&& depth <= 0x4000_0000
    &&& keys_apart(root, depth)
    &&& table_fits(node_values(ev), entries, mask, root, depth, false)
}

impl<'a, E: PositionEvaluator, C: CancelSignal, T: SearchTelemetry> NegamaxStateMachine<'a, E, C, T> {
    /// The position of the frame at height `k`.
    pub open spec fn at(&self, k: int) -> GameState {
        path_position(self.root@, self.stack@, k)
    }

    /// Plies left below the frame at height `k`.
    pub open spec fn left_at(&self, k: int) -> nat {
        (self.max_depth - k) as nat
    }

    /// The frame at height `k` stands for the node value of its position: its window is open
    /// and near enough, the tree below it holds no clashing keys and fitted the cache when the
    /// frame was opened (`opened[k]`), its alpha is its original alpha raised to its best score
    /// (never raised at the root), and its best score gives the outcome of the best of the
    /// children searched so far (`busy`: one more child is open or pending), as alpha-beta
    /// keeps it.
    #[verifier::opaque]
    pub open spec fn frame_law(&self, k: int, busy: bool, opened: Seq<Seq<Option<TranspositionEntry>>>) -> bool {
        let f = self.stack@[k];
        let p = self.at(k);
        let d = self.left_at(k);
        let vals = node_children(self.ctx.evaluator, p, d, f.legal_moves@);
        let done = if busy {
            f.move_idx - 1
        } else {
            f.move_idx as int
        };
        &&& f.original_alpha.rank() < f.beta.rank()
        &&& f.original_alpha != EvaluationScore::Value(i32::MIN)
        &&& f.beta != EvaluationScore::Value(i32::MIN)
        &&& plies(f.original_alpha) + d <= 0x8000_0000
        &&& plies(f.beta) + d <= 0x8000_0000
        &&& keys_apart(p, d)
        &&& table_fits(node_values(self.ctx.evaluator), opened[k], self.tt.index_mask(), p, d, false)
        &&& f.legal_moves@.to_multiset() == capped(legal_moves(p)).to_multiset()
        &&& f.alpha == (if k == 0 || f.max_score.rank() <= f.original_alpha.rank() {
            f.original_alpha
        } else {
            f.max_score
        })
        &&& f.alpha.rank() < f.beta.rank()
        &&& f.max_score.rank() < f.beta.rank()
        &&& f.max_score.rank() <= f.original_alpha.rank() ==> outcome(best_score(vals.take(done))) <= outcome(
            f.max_score,
        )
        &&& f.max_score.rank() > f.original_alpha.rank() ==> outcome(best_score(vals.take(done))) == outcome(
            f.max_score,
        )
        &&& f.max_score != EvaluationScore::Value(i32::MIN)
        &&& 0 <= plies(f.max_score) <= d
        &&& f.move_idx == 0 ==> f.max_score == EvaluationScore::Mated(0)
        &&& k == 0 ==> f.original_alpha == EvaluationScore::Mated(0) && f.beta == EvaluationScore::Mating(0)
    }

    /// A child of the frame at height `k` is open or pending.
    pub open spec fn busy_at(&self, k: int, busy_top: bool) -> bool {
        k < self.stack@.len() - 1 || busy_top
    }

    /// The cache as it stands when the frame at height `k` opened its current child, or now.
    pub open spec fn table_after(
        &self,
        k: int,
        busy_top: bool,
        opened: Seq<Seq<Option<TranspositionEntry>>>,
    ) -> Seq<Option<TranspositionEntry>> {
        if self.busy_at(k, busy_top) {
            opened[k + 1]
        } else {
            self.tt.entries()
        }
    }

    /// Every frame stands for its node value, each child frame was opened with its parent's
    /// window turned around, and what the cache changed since a frame was opened lies in the
    /// tree below it (up to the opening of its open child, if any).
    pub open spec fn machine_law(&self, busy_top: bool, opened: Seq<Seq<Option<TranspositionEntry>>>) -> bool {
        let n = self.stack@.len() as int;
        &&& n >= 1
        &&& opened.len() == n + if busy_top {
            1int
        } else {
            0int
        }
        &&& !self.ctx.cancelled.can_cancel()
        &&& plain_leaves(self.ctx.evaluator)
        &&& self.max_depth <= 0x4000_0000
        &&& forall|k: int| 0 <= k < n ==> #[trigger] self.frame_law(k, self.busy_at(k, busy_top), opened)
        &&& forall|k: int|
            0 < k < n ==> (#[trigger] self.stack@[k]).original_alpha == spec_invert_score(self.stack@[k - 1].beta)
                && self.stack@[k].beta == spec_invert_score(self.stack@[k - 1].alpha)
        &&& forall|k: int|
            0 <= k < n ==> #[trigger] table_grows(
                node_values(self.ctx.evaluator),
                opened[k],
                self.table_after(k, busy_top, opened),
                self.tt.index_mask(),
                self.at(k),
                self.left_at(k),
                false,
            )
    }

    /// The result a settled child hands to the top frame stands for the child's node value in
    /// the child's window, and what the cache changed since the child was opened lies in the
    /// tree below the child.
    pub open spec fn pending_law(&self, score: EvaluationScore, opened: Seq<Seq<Option<TranspositionEntry>>>) -> bool {
        let n = self.stack@.len() as int;
        let f = self.stack@[n - 1];
        let d = self.left_at(n);
        &&& fail_soft(
            score,
            node_value(self.ctx.evaluator, self.state, d),
            spec_invert_score(f.beta),
            spec_invert_score(f.alpha),
            false,
        )
        &&& score != EvaluationScore::Value(i32::MIN)
        &&& 0 <= plies(score) <= d
        &&& table_grows(node_values(self.ctx.evaluator), opened[n], self.tt.entries(), self.tt.index_mask(), self.state, d, false)
    }
}

impl<'a, E: PositionEvaluator, C: CancelSignal, T: SearchTelemetry> NegamaxStateMachine<'a, E, C, T> {
    /// A machine just opened at the root stands for the root's node value, under the premises.
    pub proof fn lemma_law_start(&self)
        requires
            self.inv(false),
            self.stack@.len() == 1,
            self.stack@[0].move_idx == 0,
            self.stack@[0].alpha == EvaluationScore::Mated(0),
            self.stack@[0].beta == EvaluationScore::Mating(0),
            self.stack@[0].original_alpha == EvaluationScore::Mated(0),
            self.stack@[0].max_score == EvaluationScore::Mated(0),
            is_move_order(self.ctx.luts, self.root@, self.max_depth as int, self.stack@[0].legal_moves@),
            machine_premises(
                self.ctx.evaluator,
                self.ctx.cancelled.can_cancel(),
                self.tt.entries(),
                self.tt.index_mask(),
                self.root@,
                self.max_depth as nat,
            ),
        ensures
            self.machine_law(false, seq![self.tt.entries()]),
    {
        reveal(NegamaxStateMachine::frame_law);
        let opened = seq![self.tt.entries()];
        lemma_path_step(self.root@, self.stack@, 0);
        let vals = node_children(self.ctx.evaluator, self.root@, self.max_depth as nat, self.stack@[0].legal_moves@);
        assert(vals.take(0) =~= Seq::<EvaluationScore>::empty());
        assert(self.frame_law(0, self.busy_at(0, false), opened));
        assert forall|p: GameState| #[trigger] spec_lookup(self.tt.entries(), self.tt.index_mask(), p) is Some implies
            spec_lookup(self.tt.entries(), self.tt.index_mask(), p) == spec_lookup(opened[0], self.tt.index_mask(), p) by {}
        assert(table_grows(
            node_values(self.ctx.evaluator),
            opened[0],
            self.table_after(0, false, opened),
            self.tt.index_mask(),
            self.at(0),
            self.left_at(0),
            false,
        ));
    }
}

impl<'a, E: PositionEvaluator, C: CancelSignal, T: SearchTelemetry> NegamaxStateMachine<'a, E, C, T> {
    /// A frame that two machines share, with the frames below it, keeps its law.
    proof fn lemma_law_keep(
        prior: &Self,
        new: &Self,
        k: int,
        busy: bool,
        op: Seq<Seq<Option<TranspositionEntry>>>,
        on: Seq<Seq<Option<TranspositionEntry>>>,
    )
        requires
            0 <= k < prior.stack@.len(),
            k < new.stack@.len(),
            new.same_setup(prior),
            forall|j: int| 0 <= j <= k ==> new.stack@[j] == prior.stack@[j],
            on[k] == op[k],
            prior.frame_law(k, busy, op),
        ensures
            new.frame_law(k, busy, on),
            new.at(k) == prior.at(k),
    {
        reveal(NegamaxStateMachine::frame_law);
        lemma_path_prefix(prior.root@, new.stack@, prior.stack@, k);
    }

    /// A frame settled with `score`, in the fail-soft relation with its node value, is popped:
    /// the frame below awaits the score, or at the root the search ends with it.
    proof fn lemma_law_pop(
        prior: &Self,
        new: &Self,
        score: EvaluationScore,
        opened: Seq<Seq<Option<TranspositionEntry>>>,
    )
        requires
            prior.stack@.len() >= 1,
            opened.len() >= prior.stack@.len(),
            new.same_setup(prior),
            new.stack@ == prior.stack@.drop_last(),
            new.state == prior.at(prior.stack@.len() - 1),
            !prior.ctx.cancelled.can_cancel(),
            plain_leaves(prior.ctx.evaluator),
            prior.max_depth <= 0x4000_0000,
            forall|k: int| 0 <= k < prior.stack@.len() - 1 ==> #[trigger] prior.frame_law(k, true, opened),
            forall|k: int|
                0 < k < prior.stack@.len() ==> (#[trigger] prior.stack@[k]).original_alpha == spec_invert_score(
                    prior.stack@[k - 1].beta,
                ) && prior.stack@[k].beta == spec_invert_score(prior.stack@[k - 1].alpha),
            forall|k: int|
                0 <= k < prior.stack@.len() - 1 ==> #[trigger] table_grows(
                    node_values(prior.ctx.evaluator),
                    opened[k],
                    opened[k + 1],
                    prior.tt.index_mask(),
                    prior.at(k),
                    prior.left_at(k),
                    false,
                ),
            prior.stack@.len() == 1 ==> prior.stack@[0].original_alpha == EvaluationScore::Mated(0)
                && prior.stack@[0].beta == EvaluationScore::Mating(0),
            fail_soft(
                score,
                node_value(prior.ctx.evaluator, prior.at(prior.stack@.len() - 1), prior.left_at(prior.stack@.len() - 1)),
                prior.stack@[prior.stack@.len() - 1].original_alpha,
                prior.stack@[prior.stack@.len() - 1].beta,
                false,
            ),
            score != EvaluationScore::Value(i32::MIN),
            0 <= plies(score) <= prior.left_at(prior.stack@.len() - 1),
            table_grows(
                node_values(prior.ctx.evaluator),
                opened[prior.stack@.len() - 1],
                new.tt.entries(),
                prior.tt.index_mask(),
                prior.at(prior.stack@.len() - 1),
                prior.left_at(prior.stack@.len() - 1),
                false,
            ),
        ensures
            prior.stack@.len() >= 2 ==> new.machine_law(true, opened.take(prior.stack@.len() as int)) && new.pending_law(
                score,
                opened.take(prior.stack@.len() as int),
            ),
            prior.stack@.len() == 1 ==> fail_soft(
                score,
                node_value(prior.ctx.evaluator, prior.root@, prior.max_depth as nat),
                EvaluationScore::Mated(0),
                EvaluationScore::Mating(0),
                false,
            ) && table_grows(
                node_values(prior.ctx.evaluator),
                opened[0],
                new.tt.entries(),
                prior.tt.index_mask(),
                prior.root@,
                prior.max_depth as nat,
                false,
            ),
    {
        let n = prior.stack@.len() as int;
        if n == 1 {
            lemma_path_step(prior.root@, prior.stack@, 0);
        } else {
            let on = opened.take(n);
            assert forall|k: int| 0 <= k < n - 1 implies #[trigger] new.frame_law(k, new.busy_at(k, true), on) by {
                assert(prior.frame_law(k, true, opened));
                Self::lemma_law_keep(prior, new, k, true, opened, on);
            }
            assert forall|k: int| 0 < k < n - 1 implies (#[trigger] new.stack@[k]).original_alpha == spec_invert_score(
                new.stack@[k - 1].beta,
            ) && new.stack@[k].beta == spec_invert_score(new.stack@[k - 1].alpha) by {
                assert(prior.stack@[k] == new.stack@[k]);
            }
            assert forall|k: int| 0 <= k < n - 1 implies #[trigger] table_grows(
                node_values(new.ctx.evaluator),
                on[k],
                new.table_after(k, true, on),
                new.tt.index_mask(),
                new.at(k),
                new.left_at(k),
                false,
            ) by {
                lemma_path_prefix(prior.root@, new.stack@, prior.stack@, k);
                assert(table_grows(
                    node_values(prior.ctx.evaluator),
                    opened[k],
                    opened[k + 1],
                    prior.tt.index_mask(),
                    prior.at(k),
                    prior.left_at(k),
                    false,
                ));
            }
            assert(new.machine_law(true, on));
            assert(prior.stack@[n - 1].original_alpha == spec_invert_score(prior.stack@[n - 2].beta));
            assert(new.left_at(n - 1) == prior.left_at(n - 1));
        }
    }
}

impl<'a, E: PositionEvaluator, C: CancelSignal, T: SearchTelemetry> NegamaxStateMachine<'a, E, C, T> {
    /// The frames below the top of a stepping machine, and what changed below them.
    proof fn lemma_law_lower(prior: &Self, busy_top: bool, opened: Seq<Seq<Option<TranspositionEntry>>>)
        requires
            prior.machine_law(busy_top, opened),
        ensures
            forall|k: int| 0 <= k < prior.stack@.len() - 1 ==> #[trigger] prior.frame_law(k, true, opened),
            forall|k: int|
                0 <= k < prior.stack@.len() - 1 ==> #[trigger] table_grows(
                    node_values(prior.ctx.evaluator),
                    opened[k],
                    opened[k + 1],
                    prior.tt.index_mask(),
                    prior.at(k),
                    prior.left_at(k),
                    false,
                ),
            prior.frame_law(prior.stack@.len() - 1, busy_top, opened),
            table_grows(
                node_values(prior.ctx.evaluator),
                opened[prior.stack@.len() - 1],
                prior.table_after(prior.stack@.len() - 1, busy_top, opened),
                prior.tt.index_mask(),
                prior.at(prior.stack@.len() - 1),
                prior.left_at(prior.stack@.len() - 1),
                false,
            ),
    {
        let n = prior.stack@.len() as int;
        assert forall|k: int| 0 <= k < n - 1 implies #[trigger] prior.frame_law(k, true, opened) by {
            assert(prior.frame_law(k, prior.busy_at(k, busy_top), opened));
        }
        assert forall|k: int| 0 <= k < n - 1 implies #[trigger] table_grows(
            node_values(prior.ctx.evaluator),
            opened[k],
            opened[k + 1],
            prior.tt.index_mask(),
            prior.at(k),
            prior.left_at(k),
            false,
        ) by {
            assert(table_grows(
                node_values(prior.ctx.evaluator),
                opened[k],
                prior.table_after(k, busy_top, opened),
                prior.tt.index_mask(),
                prior.at(k),
                prior.left_at(k),
                false,
            ));
        }
        assert(prior.frame_law(n - 1, prior.busy_at(n - 1, busy_top), opened));
    }

    /// A frame whose moves are listed has a position with legal moves.
    proof fn lemma_listed_has_moves(ms: Seq<Move>, p: GameState)
        requires
            ms.to_multiset() == capped(legal_moves(p)).to_multiset(),
        ensures
            (ms.len() == 0) == (legal_moves(p).len() == 0),
    {
        broadcast use vstd::seq_lib::group_to_multiset_ensures;

        if capped(legal_moves(p)).len() > 0 {
            assert(capped(legal_moves(p)).contains(capped(legal_moves(p))[0]));
            assert(ms.to_multiset().count(capped(legal_moves(p))[0]) > 0);
        }
        if ms.len() > 0 {
            assert(ms.contains(ms[0]));
            assert(capped(legal_moves(p)).to_multiset().count(ms[0]) > 0);
        }
    }

    /// A step that settles the top frame, from the cache or by closing it.
    #[verifier::spinoff_prover]
    #[verifier::rlimit(100)]
    proof fn lemma_law_settle(
        prior: &Self,
        new: &Self,
        r: StepResult,
        opened: Seq<Seq<Option<TranspositionEntry>>>,
    )
        requires
            prior.inv(false),
            prior.machine_law(false, opened),
            new.same_setup(prior),
            prior.step_outcome(new, r),
            new.tt.wf(),
            !(r is Deepen),
        ensures
            r matches StepResult::Backtrack { score, pv } ==> new.machine_law(true, opened) && new.pending_law(
                score,
                opened,
            ),
            r matches StepResult::Done { best_score, pv } ==> fail_soft(
                best_score,
                node_value(prior.ctx.evaluator, prior.root@, prior.max_depth as nat),
                EvaluationScore::Mated(0),
                EvaluationScore::Mating(0),
                false,
            ) && table_grows(
                node_values(prior.ctx.evaluator),
                opened[0],
                new.tt.entries(),
                prior.tt.index_mask(),
                prior.root@,
                prior.max_depth as nat,
                false,
            ),
    {
        reveal(NegamaxStateMachine::frame_law);
        let n = prior.stack@.len() as int;
        let f = prior.top();
        let ev = prior.ctx.evaluator;
        let value = node_values(ev);
        let mask = prior.tt.index_mask();
        let p = prior.at(n - 1);
        let d = prior.left_at(n - 1);
        prior.tt.lemma_wf_len();
        Self::lemma_law_lower(prior, false, opened);
        assert(prior.state == p);
        assert(d == prior.top_remaining());
        assert(opened.take(n) =~= opened);
        let vals = node_children(ev, p, d, f.legal_moves@);
        match prior.top_cutoff() {
            Some(c) => {
                assert(f.alpha == f.original_alpha);
                lemma_fits_now(value, opened[n - 1], prior.tt.entries(), mask, p, d);
                lemma_reaches_root(p, p);
                assert(reaches(p, 0, p));
                let e = spec_lookup(prior.tt.entries(), mask, p)->Some_0;
                lemma_cutoff_sound(value, e, p, d as usize, f.alpha, f.beta, false);
                Self::lemma_law_pop(prior, new, c, opened);
            },
            None => {
                let v = prior.top_closing()->Some_0;
                Self::lemma_listed_has_moves(f.legal_moves@, p);
                if f.move_idx == 0 {
                    if f.legal_moves@.len() != 0 {
                        assert((ev.spec_evaluate(p) is Value && ev.spec_evaluate(p) != EvaluationScore::Value(i32::MIN))
                            || ev.spec_evaluate(p) == EvaluationScore::Mated(0));
                    }
                    assert(v == node_value(ev, p, d));
                } else {
                    assert(f.move_idx == f.legal_moves@.len());
                    assert(vals.take(f.move_idx as int) =~= vals);
                    lemma_node_search_order(ev, p, d, f.legal_moves@);
                }
                lemma_grows_store(value, opened[n - 1], prior.tt.entries(), mask, p, d as usize, v, f.original_alpha, f.beta);
                Self::lemma_law_pop(prior, new, v, opened);
            },
        }
    }

    /// The child a step opens stands for its node value.
    #[verifier::spinoff_prover]
    #[verifier::rlimit(100)]
    proof fn lemma_law_child(prior: &Self, new: &Self, opened: Seq<Seq<Option<TranspositionEntry>>>)
        requires
            prior.inv(false),
            prior.machine_law(false, opened),
            new.same_setup(prior),
            prior.top_cutoff() is None,
            prior.top_closing() is None,
            prior.deepened(new),
        ensures
            new.frame_law(prior.stack@.len() as int, false, opened.push(prior.tt.entries())),
            new.at(prior.stack@.len() as int) == new.state,
    {
        reveal(NegamaxStateMachine::frame_law);
        let n = prior.stack@.len() as int;
        let f = prior.top();
        let ev = prior.ctx.evaluator;
        let value = node_values(ev);
        let mask = prior.tt.index_mask();
        let p = prior.at(n - 1);
        let d = prior.left_at(n - 1);
        let opened2 = opened.push(prior.tt.entries());
        let g = new.stack@[n - 1];
        let child = new.stack@[n];
        let mv = f.legal_moves@[f.move_idx as int];
        let cpos = new.state;
        Self::lemma_law_lower(prior, false, opened);
        assert(prior.state == p);
        assert(d == prior.top_remaining());
        assert(forall|j: int| 0 <= j < n - 1 ==> new.stack@[j] == prior.stack@[j]) by {
            assert forall|j: int| 0 <= j < n - 1 implies new.stack@[j] == prior.stack@[j] by {
                assert(new.stack@.take(n - 1)[j] == prior.stack@.take(n - 1)[j]);
            }
        }
        lemma_path_prefix(prior.root@, new.stack@, prior.stack@, n - 1);
        lemma_path_step(new.root@, new.stack@, n - 1);
        assert(new.at(n - 1) == p);
        assert(played_move(g) == mv);
        assert(new.at(n) == cpos);
        assert(new.left_at(n - 1) == d);
        broadcast use vstd::seq_lib::group_to_multiset_ensures;

        assert(f.legal_moves@.contains(mv));
        assert(capped(legal_moves(p)).to_multiset().count(mv) > 0);
        assert(capped(legal_moves(p)).contains(mv));
        assert(d >= 1);
        crate::score::lemma_invert_reverses_order(f.alpha, f.beta);
        lemma_outcome_invert(f.alpha);
        lemma_outcome_invert(f.beta);
        lemma_keys_apart_child(p, mv, d);
        lemma_fits_child(value, opened[n - 1], prior.tt.entries(), mask, p, mv, d, false);
        let cvals = node_children(ev, cpos, (d - 1) as nat, child.legal_moves@);
        assert(cvals.take(0) =~= Seq::<EvaluationScore>::empty());
        assert(new.left_at(n) == (d - 1) as nat);
        assert(opened2[n] == prior.tt.entries());
    }

    /// The frame that opens a child keeps its law, now with a child open.
    #[verifier::spinoff_prover]
    #[verifier::rlimit(100)]
    proof fn lemma_law_parent(prior: &Self, new: &Self, opened: Seq<Seq<Option<TranspositionEntry>>>)
        requires
            prior.inv(false),
            prior.machine_law(false, opened),
            new.same_setup(prior),
            prior.top_cutoff() is None,
            prior.top_closing() is None,
            prior.deepened(new),
        ensures
            new.frame_law(prior.stack@.len() - 1, true, opened.push(prior.tt.entries())),
    {
        reveal(NegamaxStateMachine::frame_law);
        let n = prior.stack@.len() as int;
        let f = prior.top();
        let ev = prior.ctx.evaluator;
        let p = prior.at(n - 1);
        let d = prior.left_at(n - 1);
        let opened2 = opened.push(prior.tt.entries());
        let g = new.stack@[n - 1];
        Self::lemma_law_lower(prior, false, opened);
        assert(forall|j: int| 0 <= j < n - 1 ==> new.stack@[j] == prior.stack@[j]) by {
            assert forall|j: int| 0 <= j < n - 1 implies new.stack@[j] == prior.stack@[j] by {
                assert(new.stack@.take(n - 1)[j] == prior.stack@.take(n - 1)[j]);
            }
        }
        lemma_path_prefix(prior.root@, new.stack@, prior.stack@, n - 1);
        assert(new.at(n - 1) == p);
        assert(new.left_at(n - 1) == d);
        let vals = node_children(ev, p, d, f.legal_moves@);
        assert(node_children(ev, new.at(n - 1), new.left_at(n - 1), g.legal_moves@) == vals);
        assert(opened2[n - 1] == opened[n - 1]);
    }

    /// A step that opens the top frame's next child.
    #[verifier::spinoff_prover]
    #[verifier::rlimit(100)]
    proof fn lemma_law_deepen(prior: &Self, new: &Self, opened: Seq<Seq<Option<TranspositionEntry>>>)
        requires
            prior.inv(false),
            prior.machine_law(false, opened),
            new.same_setup(prior),
            prior.top_cutoff() is None,
            prior.top_closing() is None,
            prior.deepened(new),
        ensures
            new.machine_law(false, opened.push(prior.tt.entries())),
    {
        let n = prior.stack@.len() as int;
        let f = prior.top();
        let ev = prior.ctx.evaluator;
        let value = node_values(ev);
        let mask = prior.tt.index_mask();
        let p = prior.at(n - 1);
        let d = prior.left_at(n - 1);
        let opened2 = opened.push(prior.tt.entries());
        let g = new.stack@[n - 1];
        let child = new.stack@[n];
        let mv = f.legal_moves@[f.move_idx as int];
        let cpos = new.state;
        Self::lemma_law_lower(prior, false, opened);
        assert(prior.state == p);
        assert(d == prior.top_remaining());
        assert(forall|j: int| 0 <= j < n - 1 ==> new.stack@[j] == prior.stack@[j]) by {
            assert forall|j: int| 0 <= j < n - 1 implies new.stack@[j] == prior.stack@[j] by {
                assert(new.stack@.take(n - 1)[j] == prior.stack@.take(n - 1)[j]);
            }
        }
        lemma_path_prefix(prior.root@, new.stack@, prior.stack@, n - 1);
        lemma_path_step(new.root@, new.stack@, n - 1);
        assert(new.at(n - 1) == p);
        assert(played_move(g) == mv);
        assert(new.at(n) == cpos);
        assert(new.left_at(n - 1) == d);
        Self::lemma_law_child(prior, new, opened);
        assert forall|k: int| 0 <= k < n - 1 implies #[trigger] new.frame_law(k, new.busy_at(k, false), opened2) by {
            assert forall|j: int| 0 <= j <= k implies new.stack@[j] == prior.stack@[j] by {}
            Self::lemma_law_keep(prior, new, k, true, opened, opened2);
        }
        Self::lemma_law_parent(prior, new, opened);
        assert(new.frame_law(n - 1, new.busy_at(n - 1, false), opened2));
        assert(new.frame_law(n, new.busy_at(n, false), opened2));
        assert forall|k: int| 0 < k < n + 1 implies (#[trigger] new.stack@[k]).original_alpha == spec_invert_score(
            new.stack@[k - 1].beta,
        ) && new.stack@[k].beta == spec_invert_score(new.stack@[k - 1].alpha) by {
            if k < n - 1 {
                assert(new.stack@[k] == prior.stack@[k]);
                assert(new.stack@[k - 1] == prior.stack@[k - 1]);
            } else if k == n - 1 {
                assert(new.stack@[k - 1] == prior.stack@[k - 1]);
            }
        }
        assert forall|k: int| 0 <= k < n + 1 implies #[trigger] table_grows(
            value,
            opened2[k],
            new.table_after(k, false, opened2),
            mask,
            new.at(k),
            new.left_at(k),
            false,
        ) by {
            if k < n - 1 {
                lemma_path_prefix(prior.root@, new.stack@, prior.stack@, k);
                assert(new.table_after(k, false, opened2) == opened[k + 1]);
                assert(opened2[k] == opened[k]);
                assert(table_grows(value, opened[k], opened[k + 1], mask, prior.at(k), prior.left_at(k), false));
            } else if k == n - 1 {
                assert(new.table_after(k, false, opened2) == prior.tt.entries());
                assert(opened2[k] == opened[k]);
                assert(prior.table_after(n - 1, false, opened) == prior.tt.entries());
            } else {
                assert(new.table_after(k, false, opened2) == new.tt.entries());
                assert(new.tt.entries() == prior.tt.entries());
                assert forall|q: GameState| #[trigger] spec_lookup(new.tt.entries(), mask, q) is Some implies spec_lookup(
                    new.tt.entries(),
                    mask,
                    q,
                ) == spec_lookup(opened2[k], mask, q) by {}
            }
        }
    }

    /// A step keeps the machine standing for the node values: a child it opens stands for its
    /// own, and a frame it settles hands on a result that stands for the frame's.
    pub proof fn lemma_law_step(
        prior: &Self,
        new: &Self,
        r: StepResult,
        opened: Seq<Seq<Option<TranspositionEntry>>>,
    ) -> (opened2: Seq<Seq<Option<TranspositionEntry>>>)
        requires
            prior.inv(false),
            prior.machine_law(false, opened),
            new.same_setup(prior),
            (prior.stopped(new, r) && prior.ctx.cancelled.can_cancel()) || prior.step_outcome(new, r),
            new.reports(prior, r, false),
        ensures
            opened.len() >= 1 ==> opened2.len() >= 1 && opened2[0] == opened[0],
            r is Deepen ==> new.machine_law(false, opened2),
            r matches StepResult::Backtrack { score, pv } ==> new.machine_law(true, opened2) && new.pending_law(
                score,
                opened2,
            ),
            r matches StepResult::Done { best_score, pv } ==> fail_soft(
                best_score,
                node_value(prior.ctx.evaluator, prior.root@, prior.max_depth as nat),
                EvaluationScore::Mated(0),
                EvaluationScore::Mating(0),
                false,
            ) && table_grows(
                node_values(prior.ctx.evaluator),
                opened[0],
                new.tt.entries(),
                prior.tt.index_mask(),
                prior.root@,
                prior.max_depth as nat,
                false,
            ),
    {
        if r is Deepen {
            Self::lemma_law_deepen(prior, new, opened);
            assert(opened.push(prior.tt.entries())[0] == opened[0]);
            opened.push(prior.tt.entries())
        } else {
            Self::lemma_law_settle(prior, new, r, opened);
            opened
        }
    }
}

/// One child at the root, whose window is never narrowed: the fold of the child's result keeps
/// the outcome of the best of the children searched.
proof fn lemma_root_step(m: EvaluationScore, rp: EvaluationScore, v: EvaluationScore, mi: EvaluationScore)
    requires
        m.rank() <= EvaluationScore::Mated(0).rank() ==> outcome(mi) <= outcome(m),
        m.rank() > EvaluationScore::Mated(0).rank() ==> outcome(mi) == outcome(m),
        fail_soft(rp, v, EvaluationScore::Mated(0), EvaluationScore::Mating(0), false),
    ensures
        ({
            let m2 = if rp.rank() > m.rank() {
                rp
            } else {
                m
            };
            let mi2 = if v.rank() > mi.rank() {
                v
            } else {
                mi
            };
            &&& m2.rank() <= EvaluationScore::Mated(0).rank() ==> outcome(mi2) <= outcome(m2)
            &&& m2.rank() > EvaluationScore::Mated(0).rank() ==> outcome(mi2) == outcome(m2)
        }),
{
    lemma_key_monotone(v, mi, false);
    lemma_key_monotone(mi, v, false);
    lemma_key_monotone(rp, m, false);
    lemma_key_monotone(m, rp, false);
}

impl<'a, E: PositionEvaluator, C: CancelSignal, T: SearchTelemetry> NegamaxStateMachine<'a, E, C, T> {
    /// Folding a settled child's result into the top frame, as alpha-beta does.
    #[verifier::spinoff_prover]
    #[verifier::rlimit(100)]
    proof fn lemma_law_fold(prior: &Self, score: EvaluationScore, opened: Seq<Seq<Option<TranspositionEntry>>>)
        requires
            prior.inv(true),
            prior.machine_law(true, opened),
            prior.pending_law(score, opened),
        ensures
            ({
                let n = prior.stack@.len() as int;
                let f = prior.top();
                let p = prior.at(n - 1);
                let d = prior.left_at(n - 1);
                let m2 = prior.best_after(score);
                let a2 = prior.alpha_after(score);
                let vals = node_children(prior.ctx.evaluator, p, d, f.legal_moves@);
                let mi2 = best_score(vals.take(f.move_idx as int));
                &&& a2 == (if n == 1 || m2.rank() <= f.original_alpha.rank() {
                    f.original_alpha
                } else {
                    m2
                })
                &&& a2.rank() >= f.beta.rank() ==> n >= 2 && m2.rank() >= f.beta.rank() && outcome(mi2) >= outcome(m2)
                &&& a2.rank() < f.beta.rank() ==> m2.rank() < f.beta.rank() && (m2.rank() <= f.original_alpha.rank()
                    ==> outcome(mi2) <= outcome(m2)) && (m2.rank() > f.original_alpha.rank() ==> outcome(mi2) == outcome(
                    m2,
                ))
                &&& m2 != EvaluationScore::Value(i32::MIN)
                &&& 0 <= plies(m2) <= d
                &&& d >= 1
                &&& spec_unmake_move(prior.state, played_move(f)) == p
                &&& table_grows(node_values(prior.ctx.evaluator), opened[n - 1], prior.tt.entries(), prior.tt.index_mask(), p, d, false)
                &&& f.original_alpha.rank() < f.beta.rank()
            }),
    {
        reveal(NegamaxStateMachine::frame_law);
        let n = prior.stack@.len() as int;
        let f = prior.top();
        let ev = prior.ctx.evaluator;
        let value = node_values(ev);
        let mask = prior.tt.index_mask();
        let p = prior.at(n - 1);
        let d = prior.left_at(n - 1);
        let i = f.move_idx - 1;
        let mv = played_move(f);
        let vals = node_children(ev, p, d, f.legal_moves@);
        Self::lemma_law_lower(prior, true, opened);
        assert(prior.frame_law(n - 1, true, opened));
        lemma_path_step(prior.root@, prior.stack@, n - 1);
        assert(prior.state == spec_make_move(p, mv));
        assert(frame_ok(f, p));
        crate::state::lemma_legal_move_undo(p, mv);
        assert(d >= 1);
        broadcast use vstd::seq_lib::group_to_multiset_ensures;

        assert(f.legal_moves@.contains(mv));
        assert(capped(legal_moves(p)).to_multiset().count(mv) > 0);
        let c = prior.state;
        assert(prior.left_at(n) == (d - 1) as nat);
        lemma_node_shape(ev, c, (d - 1) as nat);
        lemma_child_window(score, node_value(ev, c, (d - 1) as nat), f.alpha, f.beta, false);
        lemma_outcome_invert(score);
        lemma_grows_compose(value, opened[n - 1], opened[n], prior.tt.entries(), mask, p, mv, d, false);
        assert(vals[i] == spec_invert_score(node_value(ev, c, (d - 1) as nat)));
        lemma_best_score_extend(vals, i);
        let rp = spec_invert_score(score);
        if n == 1 {
            lemma_root_step(f.max_score, rp, vals[i], best_score(vals.take(i)));
        } else {
            lemma_loop_step(f.original_alpha, f.beta, f.max_score, f.alpha, rp, vals[i], best_score(vals.take(i)), false);
        }
    }

    /// A settled child closes the top frame: the frame's result is handed on.
    #[verifier::spinoff_prover]
    #[verifier::rlimit(100)]
    proof fn lemma_law_close(
        prior: &Self,
        new: &Self,
        r: StepResult,
        score: EvaluationScore,
        pv: Seq<Move>,
        opened: Seq<Seq<Option<TranspositionEntry>>>,
    )
        requires
            prior.inv(true),
            prior.machine_law(true, opened),
            prior.pending_law(score, opened),
            new.same_setup(prior),
            prior.backtrack_outcome(new, r, score, pv),
            prior.closes_after(score),
            new.tt.wf(),
        ensures
            r matches StepResult::Backtrack { score, pv } ==> new.machine_law(true, opened.take(prior.stack@.len() as int))
                && new.pending_law(score, opened.take(prior.stack@.len() as int)),
            r matches StepResult::Done { best_score, pv } ==> fail_soft(
                best_score,
                node_value(prior.ctx.evaluator, prior.root@, prior.max_depth as nat),
                EvaluationScore::Mated(0),
                EvaluationScore::Mating(0),
                false,
            ) && table_grows(
                node_values(prior.ctx.evaluator),
                opened[0],
                new.tt.entries(),
                prior.tt.index_mask(),
                prior.root@,
                prior.max_depth as nat,
                false,
            ),
    {
        reveal(NegamaxStateMachine::frame_law);
        let n = prior.stack@.len() as int;
        let f = prior.top();
        let ev = prior.ctx.evaluator;
        let value = node_values(ev);
        let mask = prior.tt.index_mask();
        let p = prior.at(n - 1);
        let d = prior.left_at(n - 1);
        let m2 = prior.best_after(score);
        let vals = node_children(ev, p, d, f.legal_moves@);
        prior.tt.lemma_wf_len();
        Self::lemma_law_fold(prior, score, opened);
        Self::lemma_law_lower(prior, true, opened);
        assert(d == prior.top_remaining());
        if prior.alpha_after(score).rank() >= f.beta.rank() {
            Self::lemma_listed_has_moves(f.legal_moves@, p);
            lemma_node_search_order(ev, p, d, f.legal_moves@);
            lemma_best_score_prefix(vals, f.move_idx as int);
            lemma_key_monotone(best_score(vals.take(f.move_idx as int)), best_score(vals), false);
        } else {
            assert(f.move_idx >= f.legal_moves@.len());
            assert(frame_ok(f, p));
            assert(vals.take(f.move_idx as int) =~= vals);
            Self::lemma_listed_has_moves(f.legal_moves@, p);
            lemma_node_search_order(ev, p, d, f.legal_moves@);
        }
        assert(fail_soft(m2, node_value(ev, p, d), f.original_alpha, f.beta, false));
        lemma_grows_store(value, opened[n - 1], prior.tt.entries(), mask, p, d as usize, m2, f.original_alpha, f.beta);
        assert(opened.take(n)[n - 1] == opened[n - 1]);
        Self::lemma_law_pop(prior, new, m2, opened);
    }
}

impl<'a, E: PositionEvaluator, C: CancelSignal, T: SearchTelemetry> NegamaxStateMachine<'a, E, C, T> {
    /// A settled child that leaves the top frame open: the top frame's law.
    #[verifier::spinoff_prover]
    #[verifier::rlimit(100)]
    proof fn lemma_law_continue_top(
        prior: &Self,
        new: &Self,
        r: StepResult,
        score: EvaluationScore,
        pv: Seq<Move>,
        opened: Seq<Seq<Option<TranspositionEntry>>>,
    )
        requires
            prior.inv(true),
            prior.machine_law(true, opened),
            prior.pending_law(score, opened),
            new.same_setup(prior),
            prior.backtrack_outcome(new, r, score, pv),
            !prior.closes_after(score),
        ensures
            new.frame_law(prior.stack@.len() - 1, false, opened.take(prior.stack@.len() as int)),
    {
        reveal(NegamaxStateMachine::frame_law);
        let n = prior.stack@.len() as int;
        let f = prior.top();
        let g = new.top();
        let ev = prior.ctx.evaluator;
        let value = node_values(ev);
        let mask = prior.tt.index_mask();
        let p = prior.at(n - 1);
        let d = prior.left_at(n - 1);
        let on = opened.take(n);
        Self::lemma_law_fold(prior, score, opened);
        Self::lemma_law_lower(prior, true, opened);
        assert(forall|j: int| 0 <= j < n - 1 ==> new.stack@[j] == prior.stack@[j]) by {
            assert forall|j: int| 0 <= j < n - 1 implies new.stack@[j] == prior.stack@[j] by {
                assert(new.stack@.drop_last()[j] == prior.stack@.drop_last()[j]);
            }
        }
        lemma_path_prefix(prior.root@, new.stack@, prior.stack@, n - 1);
        assert(new.at(n - 1) == p);
        assert(new.left_at(n - 1) == d);
        assert(on[n - 1] == opened[n - 1]);
        assert(node_children(ev, new.at(n - 1), new.left_at(n - 1), g.legal_moves@) == node_children(
            ev,
            p,
            d,
            f.legal_moves@,
        ));
    }

    /// A settled child that leaves the top frame open: the frame goes on with its next move.
    #[verifier::spinoff_prover]
    #[verifier::rlimit(100)]
    proof fn lemma_law_continue(
        prior: &Self,
        new: &Self,
        r: StepResult,
        score: EvaluationScore,
        pv: Seq<Move>,
        opened: Seq<Seq<Option<TranspositionEntry>>>,
    )
        requires
            prior.inv(true),
            prior.machine_law(true, opened),
            prior.pending_law(score, opened),
            new.same_setup(prior),
            prior.backtrack_outcome(new, r, score, pv),
            !prior.closes_after(score),
        ensures
            new.machine_law(false, opened.take(prior.stack@.len() as int)),
    {
        let n = prior.stack@.len() as int;
        let f = prior.top();
        let g = new.top();
        let ev = prior.ctx.evaluator;
        let value = node_values(ev);
        let mask = prior.tt.index_mask();
        let p = prior.at(n - 1);
        let d = prior.left_at(n - 1);
        let on = opened.take(n);
        Self::lemma_law_fold(prior, score, opened);
        Self::lemma_law_lower(prior, true, opened);
        assert(forall|j: int| 0 <= j < n - 1 ==> new.stack@[j] == prior.stack@[j]) by {
            assert forall|j: int| 0 <= j < n - 1 implies new.stack@[j] == prior.stack@[j] by {
                assert(new.stack@.drop_last()[j] == prior.stack@.drop_last()[j]);
            }
        }
        lemma_path_prefix(prior.root@, new.stack@, prior.stack@, n - 1);
        assert(new.at(n - 1) == p);
        assert(new.left_at(n - 1) == d);
        assert(on[n - 1] == opened[n - 1]);
        assert forall|k: int| 0 <= k < n - 1 implies #[trigger] new.frame_law(k, new.busy_at(k, false), on) by {
            assert forall|j: int| 0 <= j <= k implies new.stack@[j] == prior.stack@[j] by {}
            Self::lemma_law_keep(prior, new, k, true, opened, on);
        }
        Self::lemma_law_continue_top(prior, new, r, score, pv, opened);
        assert(new.frame_law(n - 1, new.busy_at(n - 1, false), on));
        assert forall|k: int| 0 < k < n implies (#[trigger] new.stack@[k]).original_alpha == spec_invert_score(
            new.stack@[k - 1].beta,
        ) && new.stack@[k].beta == spec_invert_score(new.stack@[k - 1].alpha) by {
            assert(new.stack@[k - 1] == prior.stack@[k - 1]);
            if k < n - 1 {
                assert(new.stack@[k] == prior.stack@[k]);
            }
        }
        assert(new.tt.entries() == prior.tt.entries());
        assert forall|k: int| 0 <= k < n implies #[trigger] table_grows(
            value,
            on[k],
            new.table_after(k, false, on),
            mask,
            new.at(k),
            new.left_at(k),
            false,
        ) by {
            if k < n - 1 {
                lemma_path_prefix(prior.root@, new.stack@, prior.stack@, k);
                assert(new.table_after(k, false, on) == opened[k + 1]);
                assert(on[k] == opened[k]);
                assert(table_grows(value, opened[k], opened[k + 1], mask, prior.at(k), prior.left_at(k), false));
            } else {
                assert(new.table_after(k, false, on) == prior.tt.entries());
                assert(table_grows(value, opened[n - 1], prior.tt.entries(), mask, p, d, false));
            }
        }
    }

    /// Handing a settled child's result to the top frame keeps the machine standing for the
    /// node values.
    pub proof fn lemma_law_backtrack(
        prior: &Self,
        new: &Self,
        r: StepResult,
        score: EvaluationScore,
        pv: Seq<Move>,
        opened: Seq<Seq<Option<TranspositionEntry>>>,
    ) -> (opened2: Seq<Seq<Option<TranspositionEntry>>>)
        requires
            prior.inv(true),
            prior.machine_law(true, opened),
            prior.pending_law(score, opened),
            new.same_setup(prior),
            prior.backtrack_outcome(new, r, score, pv),
            new.reports(prior, r, true),
        ensures
            opened.len() >= 1 ==> opened2.len() >= 1 && opened2[0] == opened[0],
            r is Deepen ==> new.machine_law(false, opened2),
            r matches StepResult::Backtrack { score, pv } ==> new.machine_law(true, opened2) && new.pending_law(
                score,
                opened2,
            ),
            r matches StepResult::Done { best_score, pv } ==> fail_soft(
                best_score,
                node_value(prior.ctx.evaluator, prior.root@, prior.max_depth as nat),
                EvaluationScore::Mated(0),
                EvaluationScore::Mating(0),
                false,
            ) && table_grows(
                node_values(prior.ctx.evaluator),
                opened[0],
                new.tt.entries(),
                prior.tt.index_mask(),
                prior.root@,
                prior.max_depth as nat,
                false,
            ),
    {
        if prior.closes_after(score) {
            Self::lemma_law_close(prior, new, r, score, pv, opened);
        } else {
            Self::lemma_law_continue(prior, new, r, score, pv, opened);
        }
        assert(prior.stack@.len() >= 1) by {
            assert(prior.inv(true));
        }
        assert(opened.take(prior.stack@.len() as int)[0] == opened[0]);
        opened.take(prior.stack@.len() as int)
    }
}

impl<'a, E: PositionEvaluator, C: CancelSignal, T: SearchTelemetry> NegamaxStateMachine<'a, E, C, T> {
    /// A result handed to the root frame, turned to the root's side, has the outcome of the
    /// root move's node value turned around: the root's window is never narrowed.
    pub proof fn lemma_law_root_child(&self, score: EvaluationScore, opened: Seq<Seq<Option<TranspositionEntry>>>)
        requires
            self.inv(true),
            self.machine_law(true, opened),
            self.pending_law(score, opened),
            self.stack@.len() == 1,
        ensures
            outcome(spec_invert_score(score)) == outcome(
                spec_invert_score(
                    node_value(
                        self.ctx.evaluator,
                        spec_make_move(self.root@, played_move(self.stack@[0])),
                        (self.max_depth - 1) as nat,
                    ),
                ),
            ),
    {
        reveal(NegamaxStateMachine::frame_law);
        assert(self.frame_law(0, self.busy_at(0, true), opened));
        let f = self.stack@[0];
        lemma_path_step(self.root@, self.stack@, 0);
        let c = self.state;
        let nv = node_value(self.ctx.evaluator, c, (self.max_depth - 1) as nat);
        assert(self.left_at(1) == (self.max_depth - 1) as nat);
        lemma_node_shape(self.ctx.evaluator, c, (self.max_depth - 1) as nat);
        lemma_child_window(score, nv, EvaluationScore::Mated(0), EvaluationScore::Mating(0), false);
        lemma_outcome_invert(score);
        lemma_outcome_invert(nv);
    }
}

/// Everything the cache holds is a sound result for a position of the tree below `root` with
/// the key looked up, searched no deeper than a search `d` plies deep would search it.
pub open spec fn table_covers(
    value: spec_fn(GameState, nat) -> EvaluationScore,
    entries: Seq<Option<TranspositionEntry>>,
    mask: usize,
    root: GameState,
    d: nat,
) -> bool {
    forall|p: GameState|
        #[trigger] spec_lookup(entries, mask, p) is Some ==> exists|j: nat, q: GameState|
            j <= d && #[trigger] reaches(root, j, q) && state_key(q) == state_key(p) && spec_lookup(entries, mask, p)->Some_0.depth
                <= d - j && entry_sound(value, spec_lookup(entries, mask, p)->Some_0, q, false)
}

/// An empty cache covers every tree.
pub proof fn lemma_empty_table_covers(
    value: spec_fn(GameState, nat) -> EvaluationScore,
    entries: Seq<Option<TranspositionEntry>>,
    mask: usize,
    root: GameState,
    d: nat,
)
    requires
        entries.len() == mask + 1,
        forall|i: int| 0 <= i < entries.len() ==> entries[i] is None,
    ensures
        table_covers(value, entries, mask, root, d),
{
    assert forall|p: GameState| #[trigger] spec_lookup(entries, mask, p) is Some implies false by {
        crate::tt::lemma_slot_in_range(state_key(p), mask);
    }
}

/// A cache that covers a tree without clashing keys fits it.
pub proof fn lemma_covers_fits(
    value: spec_fn(GameState, nat) -> EvaluationScore,
    entries: Seq<Option<TranspositionEntry>>,
    mask: usize,
    root: GameState,
    d: nat,
)
    requires
        keys_apart(root, d),
        table_covers(value, entries, mask, root, d),
    ensures
        table_fits(value, entries, mask, root, d, false),
{
    assert forall|j: nat, p: GameState| j <= d && #[trigger] reaches(root, j, p) implies match spec_lookup(
        entries,
        mask,
        p,
    ) {
        None => true,
        Some(e) => e.depth <= d - j && entry_sound(value, e, p, false),
    } by {
        if spec_lookup(entries, mask, p) is Some {
            let (j2, q) = choose|j2: nat, q: GameState|
                j2 <= d && #[trigger] reaches(root, j2, q) && state_key(q) == state_key(p) && spec_lookup(
                    entries,
                    mask,
                    p,
                )->Some_0.depth <= d - j2 && entry_sound(value, spec_lookup(entries, mask, p)->Some_0, q, false);
            assert(j2 == j && q == p);
        }
    }
}

/// A search `d` plies deep over a covering cache leaves a cache that covers the search one
/// ply deeper.
pub proof fn lemma_covers_grow(
    value: spec_fn(GameState, nat) -> EvaluationScore,
    before: Seq<Option<TranspositionEntry>>,
    after: Seq<Option<TranspositionEntry>>,
    mask: usize,
    root: GameState,
    d: nat,
)
    requires
        table_covers(value, before, mask, root, d),
        table_grows(value, before, after, mask, root, d, false),
    ensures
        table_covers(value, after, mask, root, d + 1),
{
    assert forall|p: GameState| #[trigger] spec_lookup(after, mask, p) is Some implies exists|j: nat, q: GameState|
        j <= d + 1 && #[trigger] reaches(root, j, q) && state_key(q) == state_key(p) && spec_lookup(after, mask, p)->Some_0.depth
            <= (d + 1) - j && entry_sound(value, spec_lookup(after, mask, p)->Some_0, q, false) by {
        if spec_lookup(after, mask, p) == spec_lookup(before, mask, p) {
            let (j, q) = choose|j: nat, q: GameState|
                j <= d && #[trigger] reaches(root, j, q) && state_key(q) == state_key(p) && spec_lookup(
                    before,
                    mask,
                    p,
                )->Some_0.depth <= d - j && entry_sound(value, spec_lookup(before, mask, p)->Some_0, q, false);
            assert(reaches(root, j, q));
        } else {
            let (j, q) = choose|j: nat, q: GameState|
                j <= d && #[trigger] reaches(root, j, q) && state_key(q) == state_key(p) && spec_lookup(
                    after,
                    mask,
                    p,
                )->Some_0.depth == d - j && entry_sound(value, spec_lookup(after, mask, p)->Some_0, q, false);
            assert(reaches(root, j, q));
        }
    }
}

/// A tree without clashing keys has none in its upper part either.
pub proof fn lemma_keys_apart_shallower(root: GameState, d: nat, e: nat)
    requires
        keys_apart(root, d),
        e <= d,
    ensures
        keys_apart(root, e),
{
}

} // verus!
