use vstd::prelude::*;
use crate::moves::Move;

verus! {

/// A score from the point of view of the side to move: a forced loss in some plies, a
/// heuristic value, or a forced win in some plies.
#[derive(Clone, Copy, PartialEq, Eq, Structural, Debug)]
pub enum EvaluationScore {
    Mated(u32),
    Value(i32),
    Mating(u32),
}

/// Offset that places every forced loss below, and every forced win above, all values.
pub open spec fn mate_offset() -> int {
    0x1_0000_0000_0000
}

impl EvaluationScore {
    /// Position of the score on the number line: a forced loss ranks lowest (sooner is worse),
    /// then the values in their order, then a forced win (sooner is better).
    pub open spec fn rank(self) -> int {
        match self {
            EvaluationScore::Mated(n) => n - mate_offset(),
            EvaluationScore::Value(v) => v as int,
            EvaluationScore::Mating(n) => mate_offset() - n,
        }
    }

    /// The ply counter of a forced result can still be increased by one.
    pub open spec fn invertible(self) -> bool {
        match self {
            EvaluationScore::Mated(n) => n < u32::MAX,
            EvaluationScore::Value(_) => true,
            EvaluationScore::Mating(n) => n < u32::MAX,
        }
    }

    /// Whether `self` ranks strictly below `other`.
    pub fn lt(&self, other: &Self) -> (r: bool)
        ensures
            r == (self.rank() < other.rank()),
    {
        match (*self, *other) {
            (EvaluationScore::Mating(p1), EvaluationScore::Mating(p2)) => p2 < p1,
            (EvaluationScore::Mated(p1), EvaluationScore::Mated(p2)) => p1 < p2,
            (EvaluationScore::Value(v1), EvaluationScore::Value(v2)) => v1 < v2,
            (EvaluationScore::Mating(_), _) => false,
            (_, EvaluationScore::Mating(_)) => true,
            (EvaluationScore::Mated(_), _) => true,
            (_, EvaluationScore::Mated(_)) => false,
        }
    }

    /// Whether `self` ranks strictly above `other`.
    pub fn gt(&self, other: &Self) -> (r: bool)
        ensures
            r == (self.rank() > other.rank()),
    {
        other.lt(self)
    }

    /// Whether `self` ranks at or above `other`.
    pub fn ge(&self, other: &Self) -> (r: bool)
        ensures
            r == (self.rank() >= other.rank()),
    {
        !self.lt(other)
    }

    /// Whether `self` ranks at or below `other`.
    pub fn le(&self, other: &Self) -> (r: bool)
        ensures
            r == (self.rank() <= other.rank()),
    {
        !other.lt(self)
    }
}

impl Default for EvaluationScore {
    /// The neutral score, a value of zero.
    fn default() -> (r: Self)
        ensures
            r == EvaluationScore::Value(0),
    {
        EvaluationScore::Value(0)
    }
}

/// The score seen from the other side: a value is negated (the lowest value becomes the
/// highest), a forced win becomes a forced loss one ply further away, and the reverse (the
/// ply count wraps around past `u32::MAX`).
pub open spec fn spec_invert_score(score: EvaluationScore) -> EvaluationScore {
    match score {
        EvaluationScore::Value(v) => EvaluationScore::Value(
            if v == i32::MIN {
                i32::MAX as int
            } else {
                -v
            } as i32,
        ),
        EvaluationScore::Mating(d) => EvaluationScore::Mated(d.wrapping_add(1)),
        EvaluationScore::Mated(d) => EvaluationScore::Mating(d.wrapping_add(1)),
    }
}

/// Turns a score into the opponent's point of view; a ply count of `u32::MAX` wraps to 0.
pub fn invert_score(score: EvaluationScore) -> (r: EvaluationScore)
    ensures
        r == spec_invert_score(score),
{
    match score {
        EvaluationScore::Value(v) => {
            let inverted = if v == i32::MIN {
                i32::MAX
            } else {
                -v
            };
            EvaluationScore::Value(inverted)
        },
        EvaluationScore::Mating(d) => EvaluationScore::Mated(d.wrapping_add(1)),
        EvaluationScore::Mated(d) => EvaluationScore::Mating(d.wrapping_add(1)),
    }
}

/// A move with the score the search gave it.
#[derive(Clone, Copy, Debug)]
pub struct ScoredMove {
    pub current_move: Move,
    pub score: EvaluationScore,
}

/// The integer a score is compared by when picking among candidates: the value itself, or
/// the extreme of the `i32` range moved in by the ply count for forced results.
pub open spec fn spec_score_value(score: EvaluationScore) -> int {
    match score {
        EvaluationScore::Value(v) => v as int,
        EvaluationScore::Mating(ply) => i32::MAX - ply,
        EvaluationScore::Mated(ply) => i32::MIN + ply,
    }
}

/// A forced result's ply count fits the `i32` range.
pub open spec fn score_value_defined(score: EvaluationScore) -> bool {
    match score {
        EvaluationScore::Value(_) => true,
        EvaluationScore::Mating(ply) => ply <= i32::MAX,
        EvaluationScore::Mated(ply) => ply <= i32::MAX,
    }
}

/// Converts a score into the integer it is compared by when picking among candidates.
pub fn extract_score_value(score: EvaluationScore) -> (r: i32)
    requires
        score_value_defined(score),
    ensures
        r == spec_score_value(score),
{
    match score {
        EvaluationScore::Value(v) => v,
        EvaluationScore::Mating(ply) => i32::MAX - (ply as i32),
        EvaluationScore::Mated(ply) => i32::MIN + (ply as i32),
    }
}

// ============================================================================
// LAWS
// ============================================================================

/// Scores are totally ordered by rank, and equal ranks mean equal scores.
pub proof fn lemma_rank_injective(a: EvaluationScore, b: EvaluationScore)
    ensures
        a.rank() == b.rank() <==> a == b,
{
}

/// A forced loss ranks below every value, a forced win above every value; a sooner loss
/// ranks lower and a sooner win ranks higher.
pub proof fn lemma_rank_order(a: EvaluationScore, v: i32, n: u32, m: u32)
    ensures
        EvaluationScore::Mated(n).rank() < EvaluationScore::Value(v).rank() < EvaluationScore::Mating(m).rank(),
        n < m ==> EvaluationScore::Mated(n).rank() < EvaluationScore::Mated(m).rank(),
        n < m ==> EvaluationScore::Mating(n).rank() > EvaluationScore::Mating(m).rank(),
{
}

/// Turning scores around reverses their order: what ranked lower ranks at least as high
/// after inversion, and strictly higher unless the lower score is the lowest value.
pub proof fn lemma_invert_reverses_order(a: EvaluationScore, b: EvaluationScore)
    requires
        a.invertible(),
        b.invertible(),
        a.rank() <= b.rank(),
    ensures
        spec_invert_score(b).rank() <= spec_invert_score(a).rank(),
        a.rank() < b.rank() && a != EvaluationScore::Value(i32::MIN) ==> spec_invert_score(b).rank()
            < spec_invert_score(a).rank(),
{
}

/// Inverting a value twice gives it back (the lowest value aside); a forced result comes
/// back two plies further away.
pub proof fn lemma_invert_twice(a: EvaluationScore)
    requires
        a.invertible(),
        spec_invert_score(a).invertible(),
        a != EvaluationScore::Value(i32::MIN),
    ensures
        spec_invert_score(spec_invert_score(a)) == match a {
            EvaluationScore::Value(v) => EvaluationScore::Value(v),
            EvaluationScore::Mated(n) => EvaluationScore::Mated((n + 2) as u32),
            EvaluationScore::Mating(n) => EvaluationScore::Mating((n + 2) as u32),
        },
{
}

} // verus!
