use vstd::prelude::*;
use crate::evaluators::PositionEvaluator;
use crate::moves::{Move, capped};
use crate::score::EvaluationScore;
use crate::state::{GameState, legal_moves, spec_make_move};

verus! {

// ============================================================================
// ONE-PLY MOVE RATINGS
// ============================================================================

/// A legal move with the rating of the position it leads to.
#[derive(Clone, Copy, PartialEq, Eq, Structural, Debug)]
pub struct RatedMove {
    pub action: Move,
    pub score: i32,
}

/// The rating of the position after a move, from the evaluator's score of it (given for the
/// side then to move): a value negated, a forced win the highest rating, a forced loss the
/// lowest.
pub open spec fn one_ply_rating(child: EvaluationScore) -> int {
    match child {
        EvaluationScore::Value(v) => -v,
        EvaluationScore::Mating(_) => i32::MAX as int,
        EvaluationScore::Mated(_) => i32::MIN as int,
    }
}

/// Each move rated by the evaluator's score of the position it leads to.
pub open spec fn rate_each<E: PositionEvaluator>(evaluator: &E, s: GameState, moves: Seq<Move>) -> Seq<RatedMove> {
    moves.map_values(
        |m: Move| RatedMove { action: m, score: one_ply_rating(evaluator.spec_evaluate(spec_make_move(s, m))) as i32 },
    )
}

/// Where an entry rated `score` goes among `s`: before the first entry rated lower.
pub open spec fn insert_pos(s: Seq<RatedMove>, score: i32) -> int
    decreases s.len(),
{
    if s.len() == 0 {
        0
    } else if s[0].score < score {
        0
    } else {
        1 + insert_pos(s.drop_first(), score)
    }
}

/// The entries ordered from the highest rating to the lowest, entries rated alike in the
/// order they came.
pub open spec fn best_first(s: Seq<RatedMove>) -> Seq<RatedMove>
    decreases s.len(),
{
    if s.len() == 0 {
        Seq::empty()
    } else {
        let t = best_first(s.drop_last());
        t.insert(insert_pos(t, s.last().score), s.last())
    }
}

/// The entries go from the highest rating to the lowest.
pub open spec fn rated_descending(s: Seq<RatedMove>) -> bool {
    forall|i: int, j: int| 0 <= i < j < s.len() ==> s[i].score >= s[j].score
}

/// `insert_pos` lies after every entry rated at least `score` and before the first entry
/// rated lower.
proof fn lemma_insert_pos(s: Seq<RatedMove>, score: i32)
    ensures
        0 <= insert_pos(s, score) <= s.len(),
        forall|k: int| 0 <= k < insert_pos(s, score) ==> s[k].score >= score,
        insert_pos(s, score) < s.len() ==> s[insert_pos(s, score)].score < score,
    decreases s.len(),
{
    if s.len() > 0 && s[0].score >= score {
        lemma_insert_pos(s.drop_first(), score);
        assert forall|k: int| 0 <= k < insert_pos(s, score) implies s[k].score >= score by {
            if k > 0 {
                assert(s[k] == s.drop_first()[k - 1]);
            }
        }
    }
}

/// The first index rated below `score`, after entries all rated at least `score`, is
/// `insert_pos`.
proof fn lemma_insert_pos_at(s: Seq<RatedMove>, score: i32, i: int)
    requires
        0 <= i <= s.len(),
        forall|k: int| 0 <= k < i ==> s[k].score >= score,
        i < s.len() ==> s[i].score < score,
    ensures
        insert_pos(s, score) == i,
    decreases s.len(),
{
    if s.len() > 0 && i > 0 {
        assert forall|k: int| 0 <= k < i - 1 implies s.drop_first()[k].score >= score by {
            assert(s.drop_first()[k] == s[k + 1]);
        }
        lemma_insert_pos_at(s.drop_first(), score, i - 1);
    }
}

/// Ordering best first gives a descending permutation of the entries.
pub proof fn lemma_best_first(s: Seq<RatedMove>)
    ensures
        best_first(s).len() == s.len(),
        rated_descending(best_first(s)),
        best_first(s).to_multiset() == s.to_multiset(),
    decreases s.len(),
{
    broadcast use vstd::seq_lib::group_to_multiset_ensures, vstd::seq_lib::to_multiset_insert;

    if s.len() > 0 {
        let t = best_first(s.drop_last());
        let x = s.last();
        lemma_best_first(s.drop_last());
        lemma_insert_pos(t, x.score);
        let p = insert_pos(t, x.score);
        let u = t.insert(p, x);
        assert forall|i: int, j: int| 0 <= i < j < u.len() implies u[i].score >= u[j].score by {
            if j < p {
            } else if j == p {
            } else if i < p {
                if j - 1 > p - 1 {
                }
            } else if i == p {
                assert(t[p].score >= t[j - 1].score || j - 1 == p);
            } else {
            }
        }
        assert(s =~= s.drop_last().push(x));
        assert(s.drop_last().push(x).to_multiset() == s.drop_last().to_multiset().insert(x));
    } else {
        assert(s.to_multiset() =~= Seq::<RatedMove>::empty().to_multiset());
    }
}

/// Rates every legal move of the position by the evaluator's score of the position it leads
/// to, and orders them from the best rating to the worst, moves rated alike in generation
/// order.
pub fn rate_legal_moves<E: PositionEvaluator>(state: &GameState, evaluator: &E) -> (r: Vec<RatedMove>)
    requires
        evaluator.ready(),
    ensures
        r@ == best_first(rate_each(evaluator, *state, capped(legal_moves(*state)))),
        rated_descending(r@),
        r@.to_multiset() == rate_each(evaluator, *state, capped(legal_moves(*state))).to_multiset(),
{
    let legal = state.generate_legal_moves();
    let ghost rated = rate_each(evaluator, *state, legal@);
    let mut ranked: Vec<RatedMove> = Vec::new();
    let mut n: usize = 0;
    while n < legal.len()
        invariant
            n <= legal@.len(),
            evaluator.ready(),
            rated == rate_each(evaluator, *state, legal@),
            ranked@ == best_first(rated.take(n as int)),
        decreases legal@.len() - n,
    {
        let current_move = legal.get(n);
        let mut virtual_state = *state;
        virtual_state.make_move(current_move);
        let score = match evaluator.evaluate(&virtual_state) {
            EvaluationScore::Value(v) => -v,
            EvaluationScore::Mating(_) => i32::MAX,
            EvaluationScore::Mated(_) => i32::MIN,
        };
        let entry = RatedMove { action: current_move, score };
        assert(entry == rated[n as int]);
        let mut pos: usize = 0;
        while pos < ranked.len() && ranked[pos].score >= score
            invariant
                pos <= ranked@.len(),
                forall|k: int| 0 <= k < pos ==> ranked@[k].score >= score,
            decreases ranked@.len() - pos,
        {
            pos = pos + 1;
        }
        proof {
            lemma_insert_pos_at(ranked@, score, pos as int);
            assert(rated.take(n + 1).drop_last() =~= rated.take(n as int));
            assert(rated.take(n + 1).last() == entry);
        }
        ranked.insert(pos, entry);
        n = n + 1;
    }
    proof {
        assert(rated.take(legal@.len() as int) =~= rated);
        lemma_best_first(rated);
    }
    ranked
}

} // verus!
