use vstd::prelude::*;
use std::cmp::Ordering;
use vstd::std_specs::cmp::PartialOrdSpecImpl;
use crate::score::EvaluationScore;

verus! {

/// How two scores compare: by their rank.
pub open spec fn rank_order(a: EvaluationScore, b: EvaluationScore) -> Ordering {
    if a.rank() < b.rank() {
        Ordering::Less
    } else if a.rank() == b.rank() {
        Ordering::Equal
    } else {
        Ordering::Greater
    }
}

/// Orders two integers.
fn order_u32(a: u32, b: u32) -> (r: Ordering)
    ensures
        r == (if a < b {
            Ordering::Less
        } else if a == b {
            Ordering::Equal
        } else {
            Ordering::Greater
        }),
{
    if a < b {
        Ordering::Less
    } else if a == b {
        Ordering::Equal
    } else {
        Ordering::Greater
    }
}

/// Orders two integers.
fn order_i32(a: i32, b: i32) -> (r: Ordering)
    ensures
        r == (if a < b {
            Ordering::Less
        } else if a == b {
            Ordering::Equal
        } else {
            Ordering::Greater
        }),
{
    if a < b {
        Ordering::Less
    } else if a == b {
        Ordering::Equal
    } else {
        Ordering::Greater
    }
}

impl EvaluationScore {
    /// The total order of scores: forced wins above values above forced losses; a sooner win
    /// is better, a sooner loss worse; values by their number.
    pub fn cmp(&self, other: &Self) -> (r: Ordering)
        ensures
            r == rank_order(*self, *other),
    {
        match (*self, *other) {
            (EvaluationScore::Mating(p1), EvaluationScore::Mating(p2)) => order_u32(p2, p1),
            (EvaluationScore::Mated(p1), EvaluationScore::Mated(p2)) => order_u32(p1, p2),
            (EvaluationScore::Value(v1), EvaluationScore::Value(v2)) => order_i32(v1, v2),
            (EvaluationScore::Mating(_), _) => Ordering::Greater,
            (_, EvaluationScore::Mating(_)) => Ordering::Less,
            (EvaluationScore::Mated(_), _) => Ordering::Less,
            (_, EvaluationScore::Mated(_)) => Ordering::Greater,
        }
    }
}

impl PartialOrd for EvaluationScore {
    /// The order of `cmp`.
    fn partial_cmp(&self, other: &Self) -> (r: Option<Ordering>) {
        Some(self.cmp(other))
    }
}

impl PartialOrdSpecImpl for EvaluationScore {
    open spec fn obeys_partial_cmp_spec() -> bool {
        true
    }

    open spec fn partial_cmp_spec(&self, other: &Self) -> Option<Ordering> {
        Some(rank_order(*self, *other))
    }
}

} // verus!
