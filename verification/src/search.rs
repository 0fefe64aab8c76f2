use vstd::prelude::*;
use crate::evaluators::PositionEvaluator;
use crate::heuristics::{evaluate_move, move_order_key};
use crate::luts::EngineLUTs;
use crate::moves::{Move, MoveList, capped};
use crate::score::{EvaluationScore, ScoredMove, invert_score, spec_invert_score};
use crate::state::{GameState, legal_moves, allies_of, enemies_of, is_legal_move, lemma_legal_moves_exact};
use crate::tt::{HashEntryBounds, TranspositionTable, spec_lookup, spec_store};

verus! {

// ============================================================================
// SEARCH CONTEXT
// ============================================================================

/// Counts the nodes a search visits.
pub trait SearchTelemetry {
    /// Notes one more visited node.
    fn record_node_explored(&self);
}

/// Telemetry that records nothing.
pub struct NoOpTelemetry;

impl SearchTelemetry for NoOpTelemetry {
    fn record_node_explored(&self) {
    }
}

/// Tells a running search to stop early.
pub trait CancelSignal {
    /// Whether the signal can ever ask the search to stop.
    spec fn can_cancel(&self) -> bool;

    /// Whether the search should stop now; a signal that cannot cancel never says so.
    fn is_cancelled(&self) -> (r: bool)
        ensures
            r ==> self.can_cancel(),
    ;
}

/// A signal that never asks the search to stop.
pub struct NeverCancelled;

impl CancelSignal for NeverCancelled {
    open spec fn can_cancel(&self) -> bool {
        false
    }

    fn is_cancelled(&self) -> (r: bool) {
        false
    }
}

/// What a search reads: the evaluator for leaf positions, the tables, and the stop signal.
pub struct SearchContext<'a, E: PositionEvaluator, C: CancelSignal> {
    pub evaluator: &'a E,
    pub luts: &'a EngineLUTs,
    pub cancelled: &'a C,
}

impl<'a, E: PositionEvaluator, C: CancelSignal> SearchContext<'a, E, C> {
    /// The evaluator and the tables are ready.
    pub open spec fn ready(&self) -> bool {
        self.evaluator.ready() && self.luts.wf()
    }
}

// ============================================================================
// LOW-LEVEL SEARCH ASSISTANTS
// ============================================================================

/// The moves are sorted by their ordering key (lowest first).
pub open spec fn sorted_by_order_key(luts: &EngineLUTs, s: GameState, moves: Seq<Move>) -> bool {
    forall|a: int, b: int|
        0 <= a < b < moves.len() ==> move_order_key(
            luts,
            moves[a].from_sq() as int,
            moves[a].to_sq() as int,
            allies_of(s),
            enemies_of(s),
        ) <= move_order_key(luts, moves[b].from_sq() as int, moves[b].to_sq() as int, allies_of(s), enemies_of(s))
}

/// The ordering key of a move in the position `s`.
pub open spec fn order_key(luts: &EngineLUTs, s: GameState, m: Move) -> int {
    move_order_key(luts, m.from_sq() as int, m.to_sq() as int, allies_of(s), enemies_of(s))
}

/// `x` put into `ms` right after the last move whose key is at most its own (at the front
/// when there is none).
pub open spec fn insert_by_key(luts: &EngineLUTs, s: GameState, ms: Seq<Move>, x: Move) -> Seq<Move>
    decreases ms.len(),
{
    if ms.len() == 0 {
        seq![x]
    } else if order_key(luts, s, ms.last()) <= order_key(luts, s, x) {
        ms.push(x)
    } else {
        insert_by_key(luts, s, ms.drop_last(), x).push(ms.last())
    }
}

/// The moves sorted by their ordering key, lowest first, moves with equal keys kept in the
/// order they come in.
pub open spec fn sort_by_key(luts: &EngineLUTs, s: GameState, ms: Seq<Move>) -> Seq<Move>
    decreases ms.len(),
{
    if ms.len() == 0 {
        ms
    } else {
        insert_by_key(luts, s, sort_by_key(luts, s, ms.drop_last()), ms.last())
    }
}

/// Inserting `x` where every move from `j` on has a higher key and the one before `j` (if
/// any) does not puts it at `j`.
proof fn lemma_insert_at(luts: &EngineLUTs, s: GameState, ms: Seq<Move>, x: Move, j: int)
    requires
        0 <= j <= ms.len(),
        j > 0 ==> order_key(luts, s, ms[j - 1]) <= order_key(luts, s, x),
        forall|k: int| j <= k < ms.len() ==> order_key(luts, s, #[trigger] ms[k]) > order_key(luts, s, x),
    ensures
        insert_by_key(luts, s, ms, x) == ms.take(j) + seq![x] + ms.skip(j),
    decreases ms.len(),
{
    if ms.len() == j {
        assert(ms.take(j) =~= ms);
        assert(ms.skip(j) =~= Seq::<Move>::empty());
        if j > 0 {
            assert(ms.last() == ms[j - 1]);
        }
        assert(ms.take(j) + seq![x] + ms.skip(j) =~= if j == 0 { seq![x] } else { ms.push(x) });
    } else {
        let p = ms.drop_last();
        assert(order_key(luts, s, ms[ms.len() - 1]) > order_key(luts, s, x));
        assert forall|k: int| j <= k < p.len() implies order_key(luts, s, #[trigger] p[k]) > order_key(luts, s, x) by {
            assert(p[k] == ms[k]);
        }
        if j > 0 {
            assert(p[j - 1] == ms[j - 1]);
        }
        lemma_insert_at(luts, s, p, x, j);
        assert((p.take(j) + seq![x] + p.skip(j)).push(ms.last()) =~= ms.take(j) + seq![x] + ms.skip(j));
    }
}

/// Sorts the list by the ordering key of its moves, lowest first.
fn sort_by_order_key(list: &mut MoveList, state: &GameState, luts: &EngineLUTs)
    requires
        luts.wf(),
    ensures
        final(list)@.to_multiset() == old(list)@.to_multiset(),
        final(list)@.len() == old(list)@.len(),
        sorted_by_order_key(luts, *state, final(list)@),
        final(list)@ == sort_by_key(luts, *state, old(list)@),
{
    broadcast use vstd::seq_lib::to_multiset_update;

    let (allied_pieces, enemy_pieces) = state.get_player_pieces_relative();
    let n = list.len();
    let mut keys: Vec<i32> = Vec::new();
    let mut x: usize = 0;
    while x < n
        invariant
            luts.wf(),
            n == list@.len(),
            x <= n,
            keys@.len() == x,
            allied_pieces.0 == allies_of(*state),
            enemy_pieces.0 == enemies_of(*state),
            forall|y: int| 0 <= y < x ==> keys@[y] == move_order_key(luts, list@[y].from_sq() as int,
                list@[y].to_sq() as int, allies_of(*state), enemies_of(*state)),
        decreases n - x,
    {
        let m = list.get(x);
        keys.push(evaluate_move(&m, allied_pieces, enemy_pieces, luts));
        x = x + 1;
    }
    let ghost initial = list@;
    let mut i: usize = 1;
    proof {
        if n > 0 {
            let t1 = initial.take(1);
            assert(t1.drop_last() =~= Seq::<Move>::empty());
            assert(t1.last() == initial[0]);
            assert(sort_by_key(luts, *state, Seq::<Move>::empty()) == Seq::<Move>::empty());
            assert(sort_by_key(luts, *state, t1) == insert_by_key(luts, *state, Seq::<Move>::empty(), initial[0]));
            assert(list@.take(1) =~= seq![initial[0]]);
            assert(list@.skip(1) =~= initial.skip(1));
        }
    }
    while i < n
        invariant
            n > 0 ==> list@.take(i as int) == sort_by_key(luts, *state, initial.take(i as int)),
            n > 0 ==> list@.skip(i as int) == initial.skip(i as int),
            initial.len() == n,
            luts.wf(),
            n == list@.len(),
            keys@.len() == n,
            1 <= i || n == 0,
            i <= n || n == 0,
            list@.to_multiset() == initial.to_multiset(),
            forall|y: int| 0 <= y < n ==> keys@[y] == move_order_key(luts, list@[y].from_sq() as int,
                list@[y].to_sq() as int, allies_of(*state), enemies_of(*state)),
            forall|a: int, b: int| 0 <= a < b < i && b < n ==> keys@[a] <= keys@[b],
        decreases n - i,
    {
        let mut j = i;
        let ghost p = list@.take(i as int);
        let ghost x = list@[i as int];
        let ghost rest = initial.skip(i + 1);
        proof {
            assert(list@.skip(i as int)[0] == initial.skip(i as int)[0]);
            assert(x == initial[i as int]);
            assert(initial.skip(i as int).drop_first() =~= rest);
            assert(list@ =~= p.take(i as int) + seq![x] + p.skip(i as int) + rest);
        }
        while j > 0 && keys[j - 1] > keys[j]
            invariant
                p.len() == i,
                list@ == p.take(j as int) + seq![x] + p.skip(j as int) + rest,
                forall|k: int| j <= k < i ==> order_key(luts, *state, #[trigger] p[k]) > order_key(luts, *state, x),
                luts.wf(),
                0 <= j <= i < n,
                n == list@.len(),
                keys@.len() == n,
                list@.to_multiset() == initial.to_multiset(),
                forall|y: int| 0 <= y < n ==> keys@[y] == move_order_key(luts, list@[y].from_sq() as int,
                    list@[y].to_sq() as int, allies_of(*state), enemies_of(*state)),
                forall|a: int, b: int| 0 <= a < b <= i && a != j && b != j ==> keys@[a] <= keys@[b],
                forall|b: int| j < b <= i ==> keys@[j as int] <= keys@[b],
            decreases j,
        {
            let ghost before = list@;
            list.swap(j - 1, j);
            proof {
                let s1 = before.update(j - 1, before[j as int]);
                vstd::seq_lib::to_multiset_update(before, j - 1, before[j as int]);
                vstd::seq_lib::to_multiset_update(s1, j as int, before[j - 1]);
                assert(s1.to_multiset() == before.to_multiset().insert(before[j as int]).remove(before[j - 1]));
                assert(list@ == s1.update(j as int, before[j - 1]));
                assert(list@.to_multiset() == s1.to_multiset().insert(before[j - 1]).remove(s1[j as int]));
                assert(before.to_multiset().count(before[j - 1]) > 0) by {
                    vstd::seq_lib::to_multiset_contains(before, before[j - 1]);
                    assert(before.contains(before[j - 1]));
                }
                assert(list@.to_multiset() =~= before.to_multiset());
            }
            let kj = keys[j];
            let kp = keys[j - 1];
            keys.set(j - 1, kj);
            keys.set(j, kp);
            proof {
                assert(before[j - 1] == p[j - 1]);
                assert(before[j as int] == x);
                assert(list@ =~= p.take(j - 1) + seq![x] + p.skip(j - 1) + rest);
            }
            j = j - 1;
        }
        proof {
            if j > 0 {
                assert(list@[j - 1] == p[j - 1]);
                assert(list@[j as int] == x);
            }
            lemma_insert_at(luts, *state, p, x, j as int);
            assert(initial.take(i + 1).drop_last() =~= initial.take(i as int));
            assert(initial.take(i + 1).last() == x);
            assert(list@.take(i + 1) =~= p.take(j as int) + seq![x] + p.skip(j as int));
            assert(list@.skip(i + 1) =~= rest);
        }
        i = i + 1;
    }
    proof {
        if n > 0 {
            assert(list@.take(n as int) =~= list@);
            assert(initial.take(n as int) =~= initial);
        } else {
            assert(initial =~= Seq::<Move>::empty());
        }
    }
    proof {
        assert forall|a: int, b: int| 0 <= a < b < list@.len() implies move_order_key(luts, list@[a].from_sq() as int,
            list@[a].to_sq() as int, allies_of(*state), enemies_of(*state)) <= move_order_key(luts,
            list@[b].from_sq() as int, list@[b].to_sq() as int, allies_of(*state), enemies_of(*state)) by {
            assert(keys@[a] <= keys@[b]);
        }
    }
}

/// The moves to search in a position with `remaining_depth` plies left: its legal moves (as
/// many as a list holds), stably sorted by their ordering key when more than one ply is left
/// (moves with equal keys stay in generation order), in generation order otherwise. Exactly
/// one list is the move order of a position and depth.
pub open spec fn is_move_order(luts: &EngineLUTs, s: GameState, remaining_depth: int, ms: Seq<Move>) -> bool {
    &&& ms.to_multiset() == capped(legal_moves(s)).to_multiset()
    &&& ms.len() == capped(legal_moves(s)).len()
    &&& remaining_depth > 1 ==> sorted_by_order_key(luts, s, ms) && ms == sort_by_key(luts, s, capped(legal_moves(s)))
    &&& remaining_depth <= 1 ==> ms == capped(legal_moves(s))
    &&& forall|i: int| 0 <= i < ms.len() ==> is_legal_move(s, #[trigger] ms[i])
}

/// Generates the legal moves of the side to move; with more than one ply left, orders them by
/// their ordering key to make alpha-beta cutoffs likelier.
pub fn generate_and_order_moves(state: &GameState, remaining_depth: usize, luts: &EngineLUTs) -> (r: MoveList)
    requires
        luts.wf(),
    ensures
        is_move_order(luts, *state, remaining_depth as int, r@),
{
    let mut legal_moves = state.generate_legal_moves();
    if !legal_moves.is_empty() && remaining_depth > 1 {
        sort_by_order_key(&mut legal_moves, state, luts);
    }
    proof {
        assert(sort_by_key(luts, *state, Seq::<Move>::empty()) == Seq::<Move>::empty());
    }
    proof {
        lemma_listed_moves_legal(*state, legal_moves@);
    }
    legal_moves
}

/// A permutation of the capped legal moves holds only legal moves.
pub proof fn lemma_listed_moves_legal(s: GameState, moves: Seq<Move>)
    requires
        moves.to_multiset() == capped(legal_moves(s)).to_multiset(),
    ensures
        forall|i: int| 0 <= i < moves.len() ==> is_legal_move(s, #[trigger] moves[i]),
{
    broadcast use vstd::seq_lib::group_to_multiset_ensures;

    lemma_legal_moves_exact(s);
    assert forall|i: int| 0 <= i < moves.len() implies is_legal_move(s, #[trigger] moves[i]) by {
        let x = moves[i];
        assert(moves.contains(x));
        assert(capped(legal_moves(s)).to_multiset().count(x) > 0);
        assert(capped(legal_moves(s)).contains(x));
        let j = choose|j: int| 0 <= j < capped(legal_moves(s)).len() && capped(legal_moves(s))[j] == x;
        assert(legal_moves(s)[j] == x);
    }
}

/// What a cached entry settles for a node: its score when it was searched at least as deep
/// and is exact, or is an upper bound at or below alpha, or a lower bound at or above beta.
pub open spec fn spec_tt_cutoff(
    entry: Option<crate::tt::TranspositionEntry>,
    remaining_depth: usize,
    alpha: EvaluationScore,
    beta: EvaluationScore,
) -> Option<EvaluationScore> {
    match entry {
        None => None,
        Some(e) => if e.depth < remaining_depth {
            None
        } else {
            match e.bounds {
                HashEntryBounds::Exact => Some(e.score),
                HashEntryBounds::Lower => if e.score.rank() >= beta.rank() {
                    Some(e.score)
                } else {
                    None
                },
                HashEntryBounds::Upper => if e.score.rank() <= alpha.rank() {
                    Some(e.score)
                } else {
                    None
                },
            }
        },
    }
}

/// Probes the cache for a score that settles the node without searching it.
pub fn evaluate_tt_cache(
    state: &GameState,
    tt: &TranspositionTable,
    remaining_depth: usize,
    alpha: EvaluationScore,
    beta: EvaluationScore,
) -> (r: Option<EvaluationScore>)
    requires
        tt.wf(),
    ensures
        r == spec_tt_cutoff(spec_lookup(tt.entries(), tt.index_mask(), *state), remaining_depth, alpha, beta),
{
    let entry = match tt.lookup(state) {
        Some(e) => e,
        None => {
            return None;
        },
    };
    if entry.depth < remaining_depth {
        return None;
    }
    match entry.bounds {
        HashEntryBounds::Exact => Some(entry.score),
        HashEntryBounds::Lower => if entry.score.ge(&beta) {
            Some(entry.score)
        } else {
            None
        },
        HashEntryBounds::Upper => if entry.score.le(&alpha) {
            Some(entry.score)
        } else {
            None
        },
    }
}

/// The score of a node that is not searched further: a loss now without legal moves, the
/// evaluator's score at the depth limit.
pub open spec fn spec_node_bounds<E: PositionEvaluator>(
    evaluator: &E,
    state: GameState,
    move_count: nat,
    remaining_depth: usize,
) -> Option<EvaluationScore> {
    if move_count == 0 {
        Some(EvaluationScore::Mated(0))
    } else if remaining_depth == 0 {
        Some(evaluator.spec_evaluate(state))
    } else {
        None
    }
}

/// Settles terminal nodes: no legal move, or no depth left.
pub fn evaluate_node_bounds<E: PositionEvaluator, C: CancelSignal>(
    state: &GameState,
    ctx: &SearchContext<E, C>,
    legal_moves: &MoveList,
    remaining_depth: usize,
) -> (r: Option<EvaluationScore>)
    requires
        ctx.ready(),
    ensures
        r == spec_node_bounds(ctx.evaluator, *state, legal_moves@.len(), remaining_depth),
        r matches Some(sc) ==> sc.invertible(),
{
    if legal_moves.is_empty() {
        return Some(EvaluationScore::Mated(0));
    }
    if remaining_depth == 0 {
        return Some(ctx.evaluator.evaluate(state));
    }
    None
}

/// A principal variation: the leading move followed by the child's line.
pub fn compile_pv_line(leading_move: Move, child_pv: &[Move]) -> (r: Vec<Move>)
    ensures
        r@ == seq![leading_move] + child_pv@,
{
    let mut new_pv: Vec<Move> = Vec::new();
    new_pv.push(leading_move);
    let mut i: usize = 0;
    while i < child_pv.len()
        invariant
            i <= child_pv@.len(),
            new_pv@ == seq![leading_move] + child_pv@.take(i as int),
        decreases child_pv@.len() - i,
    {
        new_pv.push(child_pv[i]);
        i = i + 1;
        assert(child_pv@.take(i as int) =~= child_pv@.take(i - 1) .push(child_pv@[i - 1]));
    }
    assert(child_pv@.take(child_pv@.len() as int) =~= child_pv@);
    new_pv
}

/// The bound class of a node's score: at or below the original alpha it only bounds the value
/// from above, at or above beta from below, else it is exact.
pub open spec fn spec_bounds_class(max_score: EvaluationScore, original_alpha: EvaluationScore, beta: EvaluationScore)
    -> HashEntryBounds {
    if max_score.rank() <= original_alpha.rank() {
        HashEntryBounds::Upper
    } else if max_score.rank() >= beta.rank() {
        HashEntryBounds::Lower
    } else {
        HashEntryBounds::Exact
    }
}

/// Caches a node's result with its bound class.
pub fn commit_node_to_tt(
    state: &GameState,
    tt: &mut TranspositionTable,
    max_score: EvaluationScore,
    original_alpha: EvaluationScore,
    beta: EvaluationScore,
    remaining_depth: usize,
)
    requires
        old(tt).wf(),
    ensures
        final(tt).wf(),
        final(tt).index_mask() == old(tt).index_mask(),
        final(tt).entries() == spec_store(old(tt).entries(), old(tt).index_mask(), *state, max_score,
            remaining_depth, spec_bounds_class(max_score, original_alpha, beta)),
{
    let bounds = if max_score.le(&original_alpha) {
        HashEntryBounds::Upper
    } else if max_score.ge(&beta) {
        HashEntryBounds::Lower
    } else {
        HashEntryBounds::Exact
    };
    tt.store(state, max_score, remaining_depth, bounds);
}

} // verus!
