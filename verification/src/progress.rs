use vstd::prelude::*;
use vstd::arithmetic::power::pow;

verus! {

// ============================================================================
// PLACE-VALUE MEASURE
// ============================================================================
// A depth-first search is tracked by one digit per open frame. Reading the digits as a number
// in a fixed base, most significant first and padded with zeros to the maximal stack height,
// every step of the search makes the number grow, and it is bounded: the search ends.

/// The base of the digits.
pub open spec fn digit_base() -> int {
    300
}

/// The digit at position `i`, zero past the end.
pub open spec fn digit_at(ds: Seq<int>, i: int) -> int {
    if 0 <= i < ds.len() {
        ds[i]
    } else {
        0
    }
}

/// Every digit lies in `0 .. digit_base()`.
pub open spec fn digits_bounded(ds: Seq<int>) -> bool {
    forall|i: int| 0 <= i < ds.len() ==> 0 <= #[trigger] ds[i] < digit_base()
}

/// The number that the digits from position `i` on spell out, over `width` positions.
pub open spec fn place_value(ds: Seq<int>, i: nat, width: nat) -> int
    decreases width - i,
{
    if i >= width {
        0
    } else {
        digit_at(ds, i as int) * pow(digit_base(), (width - 1 - i) as nat) + place_value(ds, i + 1, width)
    }
}

/// The number lies between zero and the base raised to the number of positions it spans.
pub proof fn lemma_place_value_bounds(ds: Seq<int>, i: nat, width: nat)
    requires
        digits_bounded(ds),
        i <= width,
    ensures
        0 <= place_value(ds, i, width) < pow(digit_base(), (width - i) as nat),
    decreases width - i,
{
    if i < width {
        lemma_place_value_bounds(ds, i + 1, width);
        let p = pow(digit_base(), (width - 1 - i) as nat);
        vstd::arithmetic::power::lemma_pow_positive(digit_base(), (width - 1 - i) as nat);
        assert(pow(digit_base(), (width - i) as nat) == digit_base() * p) by {
            let e = (width - 1 - i) as nat;
            assert((width - i) as nat == e + 1);
            reveal_with_fuel(pow, 2);
            assert(pow(digit_base(), e + 1) == digit_base() * pow(digit_base(), e));
        }
        let d = digit_at(ds, i as int);
        assert(0 <= d < digit_base());
        assert(0 <= d * p) by (nonlinear_arith)
            requires
                0 <= d,
                0 < p,
        ;
        assert(d * p + p <= digit_base() * p) by (nonlinear_arith)
            requires
                d < digit_base(),
                0 < p,
        ;
    } else {
        assert(pow(digit_base(), 0) == 1) by {
            reveal_with_fuel(pow, 1);
        }
    }
}

/// Numbers compare like their first differing digit: equal digits before position `k` and a
/// smaller digit at `k` give a smaller number.
pub proof fn lemma_place_value_lt(a: Seq<int>, b: Seq<int>, i: nat, k: nat, width: nat)
    requires
        digits_bounded(a),
        digits_bounded(b),
        i <= k < width,
        forall|j: int| i <= j < k ==> digit_at(a, j) == digit_at(b, j),
        digit_at(a, k as int) < digit_at(b, k as int),
    ensures
        place_value(a, i, width) < place_value(b, i, width),
    decreases k - i,
{
    if i < k {
        lemma_place_value_lt(a, b, i + 1, k, width);
    } else {
        lemma_place_value_bounds(a, i + 1, width);
        lemma_place_value_bounds(b, i + 1, width);
        let p = pow(digit_base(), (width - 1 - i) as nat);
        let da = digit_at(a, i as int);
        let db = digit_at(b, i as int);
        assert(da * p + p <= db * p) by (nonlinear_arith)
            requires
                da < db,
                0 < p,
        ;
    }
}

} // verus!
