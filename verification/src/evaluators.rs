use vstd::prelude::*;
use std::sync::Arc;
use crate::bitboard::{group_bits, bit_set, popcount, Bitboard, lemma_popcount_le};
use crate::heuristics::{FeatureMatrix, evaluate_position, matrix_matches, feature_count, tile_cells_count,
    feature_word};
use crate::luts::EngineLUTs;
use crate::score::EvaluationScore;
use crate::state::{GameState, allies_of, enemies_of};

verus! {

broadcast use group_bits;

// ============================================================================
// EVALUATOR INTERFACE
// ============================================================================

/// A static evaluation of positions, from the point of view of the side to move.
pub trait PositionEvaluator {
    /// The score the evaluator gives the position.
    spec fn spec_evaluate(&self, state: GameState) -> EvaluationScore;

    /// The evaluator is set up and can be called.
    spec fn ready(&self) -> bool;

    /// Scores the position for the side to move; the score can be turned around, and a value
    /// can be negated.
    fn evaluate(&self, state: &GameState) -> (r: EvaluationScore)
        requires
            self.ready(),
        ensures
            r == self.spec_evaluate(*state),
            r.invertible(),
            r != EvaluationScore::Value(i32::MIN),
    ;
}

// ============================================================================
// DOT PRODUCT OVER THE FEATURE TENSOR
// ============================================================================

/// Largest weight magnitude: a square falls in at most one cell of each of the three tile
/// classes, so the counts of a position add up to at most 192, and 192 times this bound fits
/// in an `i32`.
pub const MAX_WEIGHT: i32 = 11_184_810;

/// A source of one weight per feature cell [tile][sovereignty][region][parity].
pub trait WeightLookup {
    /// The weight of a cell.
    spec fn spec_weight(&self, t: int, s: int, g: int, p: int) -> i32;

    /// The lookup can be called.
    spec fn lookup_ready(&self) -> bool;

    /// The weight of a cell.
    fn weight(&self, t: usize, s: usize, g: usize, p: usize) -> (w: i32)
        requires
            self.lookup_ready(),
            t < 3,
            s < 6,
            g < 3,
            p < 2,
        ensures
            w == self.spec_weight(t as int, s as int, g as int, p as int),
    ;
}

/// Every weight of the lookup is at most `MAX_WEIGHT` in magnitude.
pub open spec fn weights_bounded<W: WeightLookup>(w: &W) -> bool {
    forall|t: int, s: int, g: int, p: int|
        0 <= t < 3 && 0 <= s < 6 && 0 <= g < 3 && 0 <= p < 2 ==> -MAX_WEIGHT <= #[trigger] w.spec_weight(
            t,
            s,
            g,
            p,
        ) <= MAX_WEIGHT
}

/// Tile index of the `k`-th cell in row-major order.
pub open spec fn cell_t(k: int) -> int {
    k / 36
}

/// Sovereignty index of the `k`-th cell.
pub open spec fn cell_s(k: int) -> int {
    (k / 6) % 6
}

/// Region index of the `k`-th cell.
pub open spec fn cell_g(k: int) -> int {
    (k / 2) % 3
}

/// Parity index of the `k`-th cell.
pub open spec fn cell_p(k: int) -> int {
    k % 2
}

/// Sum of count times weight over the first `k` cells.
pub open spec fn dot_sum<W: WeightLookup>(counts: spec_fn(int, int, int, int) -> int, w: &W, k: nat) -> int
    decreases k,
{
    if k == 0 {
        0
    } else {
        let j = k - 1;
        dot_sum(counts, w, (k - 1) as nat) + counts(cell_t(j), cell_s(j), cell_g(j), cell_p(j))
            * w.spec_weight(cell_t(j), cell_s(j), cell_g(j), cell_p(j)) as int
    }
}

/// Number of nonzero cells among the first `k` whose sovereignty is neither "no conflict"
/// nor "enemy uncontested" (the squares the side to move is active on).
pub open spec fn active_cells(counts: spec_fn(int, int, int, int) -> int, k: nat) -> nat
    decreases k,
{
    if k == 0 {
        0
    } else {
        let j = k - 1;
        active_cells(counts, (k - 1) as nat) + if cell_s(j) != 2 && cell_s(j) != 5 && counts(
            cell_t(j),
            cell_s(j),
            cell_g(j),
            cell_p(j),
        ) > 0 {
            1nat
        } else {
            0nat
        }
    }
}

/// The dot-product score: a loss now when the side to move is active nowhere, else the sum of
/// count times weight over all 108 cells.
pub open spec fn dot_score<W: WeightLookup>(counts: spec_fn(int, int, int, int) -> int, w: &W) -> EvaluationScore {
    if active_cells(counts, 108) == 0 {
        EvaluationScore::Mated(0)
    } else {
        EvaluationScore::Value(dot_sum(counts, w, 108) as i32)
    }
}

/// The counts of a feature matrix, zero outside the tensor.
pub open spec fn matrix_counts(m: FeatureMatrix) -> spec_fn(int, int, int, int) -> int {
    |t: int, s: int, g: int, p: int|
        if 0 <= t < 3 && 0 <= s < 6 && 0 <= g < 3 && 0 <= p < 2 {
            m.cell(t, s, g, p) as int
        } else {
            0
        }
}

/// The feature counts of a position (allies to move), zero outside the tensor.
pub open spec fn position_counts(allies: u64, enemies: u64) -> spec_fn(int, int, int, int) -> int {
    |t: int, s: int, g: int, p: int|
        if 0 <= t < 3 && 0 <= s < 6 && 0 <= g < 3 && 0 <= p < 2 {
            feature_count(allies, enemies, t, s, g, p) as int
        } else {
            0
        }
}

/// A matrix holding the features of a position has the position's counts.
pub proof fn lemma_matrix_counts(m: FeatureMatrix, allies: u64, enemies: u64)
    requires
        matrix_matches(m, allies, enemies),
    ensures
        matrix_counts(m) == position_counts(allies, enemies),
{
    assert forall|t: int, s: int, g: int, p: int| #[trigger] matrix_counts(m)(t, s, g, p) == position_counts(
        allies,
        enemies,
    )(t, s, g, p) by {
        if 0 <= t < 3 && 0 <= s < 6 && 0 <= g < 3 && 0 <= p < 2 {
            assert(m.cell(t, s, g, p) == feature_count(allies, enemies, t, s, g, p));
        }
    }
    assert(matrix_counts(m) =~= position_counts(allies, enemies));
}

/// Sum of the counts of the first `k` cells.
pub open spec fn count_sum(counts: spec_fn(int, int, int, int) -> int, k: nat) -> int
    decreases k,
{
    if k == 0 {
        0
    } else {
        let j = k - 1;
        count_sum(counts, (k - 1) as nat) + counts(cell_t(j), cell_s(j), cell_g(j), cell_p(j))
    }
}

/// With counts that are never negative, the partial dot sums stay within the weight bound
/// times the partial count sums, and the count sums grow with `k`.
proof fn lemma_dot_sum_bound<W: WeightLookup>(counts: spec_fn(int, int, int, int) -> int, w: &W, k: nat)
    requires
        k <= 108,
        weights_bounded(w),
        forall|t: int, s: int, g: int, p: int| 0 <= #[trigger] counts(t, s, g, p),
    ensures
        -(MAX_WEIGHT * count_sum(counts, k)) <= dot_sum(counts, w, k) <= MAX_WEIGHT * count_sum(counts, k),
        0 <= count_sum(counts, k),
        forall|j: nat| j <= k ==> count_sum(counts, j) <= count_sum(counts, k),
    decreases k,
{
    if k > 0 {
        let j = k - 1;
        lemma_dot_sum_bound(counts, w, (k - 1) as nat);
        let c = counts(cell_t(j), cell_s(j), cell_g(j), cell_p(j));
        let x = w.spec_weight(cell_t(j), cell_s(j), cell_g(j), cell_p(j)) as int;
        assert(0 <= cell_t(j) < 3 && 0 <= cell_s(j) < 6 && 0 <= cell_g(j) < 3 && 0 <= cell_p(j) < 2);
        assert(-MAX_WEIGHT <= x <= MAX_WEIGHT);
        assert(-(MAX_WEIGHT * c) <= c * x <= MAX_WEIGHT * c) by (nonlinear_arith)
            requires
                0 <= c,
                -MAX_WEIGHT <= x <= MAX_WEIGHT,
        ;
        assert(MAX_WEIGHT * count_sum(counts, k) == MAX_WEIGHT * count_sum(counts, (k - 1) as nat) + MAX_WEIGHT * c)
            by (nonlinear_arith)
            requires
                count_sum(counts, k) == count_sum(counts, (k - 1) as nat) + c,
        ;
    }
}

/// The cells of one tile class come one after the other: counting on into tile `t` adds the
/// counts of its cells.
proof fn lemma_tile_block(allies: u64, enemies: u64, t: int, j: int)
    requires
        0 <= t < 3,
        0 <= j <= 36,
    ensures
        count_sum(position_counts(allies, enemies), (36 * t + j) as nat) == count_sum(
            position_counts(allies, enemies),
            (36 * t) as nat,
        ) + tile_cells_count(allies, enemies, t, j),
    decreases j,
{
    if j > 0 {
        lemma_tile_block(allies, enemies, t, j - 1);
        let i = j - 1;
        let k = 36 * t + i;
        assert(k / 36 == t && (k / 6) % 6 == i / 6 && (k / 2) % 3 == (i / 2) % 3 && k % 2 == i % 2) by (nonlinear_arith)
            requires
                0 <= t < 3,
                0 <= i < 36,
                k == 36 * t + i,
        ;
        assert(0 <= i / 6 < 6 && 0 <= (i / 2) % 3 < 3 && 0 <= i % 2 < 2);
        assert(((36 * t + j) as nat - 1) as int == k);
    }
}

/// The counts of a position add up to at most 192 over the 108 cells.
pub proof fn lemma_position_count_sum(allies: u64, enemies: u64)
    ensures
        count_sum(position_counts(allies, enemies), 108) <= 192,
{
    let counts = position_counts(allies, enemies);
    lemma_tile_block(allies, enemies, 0, 36);
    lemma_tile_block(allies, enemies, 1, 36);
    lemma_tile_block(allies, enemies, 2, 36);
    crate::heuristics::lemma_tile_cells_count(allies, enemies, 0, 36);
    crate::heuristics::lemma_tile_cells_count(allies, enemies, 1, 36);
    crate::heuristics::lemma_tile_cells_count(allies, enemies, 2, 36);
    assert(count_sum(counts, 0) == 0);
}

proof fn lemma_active_cells_le(counts: spec_fn(int, int, int, int) -> int, k: nat)
    ensures
        active_cells(counts, k) <= k,
    decreases k,
{
    if k > 0 {
        lemma_active_cells_le(counts, (k - 1) as nat);
    }
}

/// The counts of a feature matrix describing a position are at most 64.
pub proof fn lemma_feature_counts_bounded(m: FeatureMatrix, allies: u64, enemies: u64)
    requires
        matrix_matches(m, allies, enemies),
    ensures
        forall|t: int, s: int, g: int, p: int| 0 <= #[trigger] matrix_counts(m)(t, s, g, p) <= 64,
{
    assert forall|t: int, s: int, g: int, p: int| 0 <= #[trigger] matrix_counts(m)(t, s, g, p) <= 64 by {
        if 0 <= t < 3 && 0 <= s < 6 && 0 <= g < 3 && 0 <= p < 2 {
            assert(m.cell(t, s, g, p) == feature_count(allies, enemies, t, s, g, p));
            lemma_popcount_le(feature_word(allies, enemies, t, s, g, p));
        }
    }
}

/// The product of the count and the weight of the `j`-th cell.
pub open spec fn cell_product<W: WeightLookup>(counts: spec_fn(int, int, int, int) -> int, w: &W, j: int) -> int {
    counts(cell_t(j), cell_s(j), cell_g(j), cell_p(j)) * w.spec_weight(cell_t(j), cell_s(j), cell_g(j), cell_p(j)) as int
}

/// Every product of a count with its weight, and every partial sum of them in cell order, fits
/// in an `i32`: the dot product can be taken without overflow.
pub open spec fn sums_fit<W: WeightLookup>(counts: spec_fn(int, int, int, int) -> int, w: &W) -> bool {
    &&& forall|j: int| 0 <= j < 108 ==> i32::MIN <= #[trigger] cell_product(counts, w, j) <= i32::MAX
    &&& forall|k: nat| k <= 108 ==> i32::MIN <= #[trigger] dot_sum(counts, w, k) <= i32::MAX
}

/// With weights within `MAX_WEIGHT`, the dot product over a position's counts fits in an
/// `i32`, and its total is above the lowest value.
pub proof fn lemma_position_sums_fit<W: WeightLookup>(w: &W, allies: u64, enemies: u64)
    requires
        weights_bounded(w),
    ensures
        sums_fit(position_counts(allies, enemies), w),
        i32::MIN < dot_sum(position_counts(allies, enemies), w, 108),
{
    let counts = position_counts(allies, enemies);
    lemma_position_counts_bounded(allies, enemies);
    lemma_position_count_sum(allies, enemies);
    lemma_dot_sum_bound(counts, w, 108);
    assert forall|j: int| 0 <= j < 108 implies i32::MIN <= #[trigger] cell_product(counts, w, j) <= i32::MAX by {
        let c = counts(cell_t(j), cell_s(j), cell_g(j), cell_p(j));
        let x = w.spec_weight(cell_t(j), cell_s(j), cell_g(j), cell_p(j)) as int;
        assert(0 <= cell_t(j) < 3 && 0 <= cell_s(j) < 6 && 0 <= cell_g(j) < 3 && 0 <= cell_p(j) < 2);
        assert(-MAX_WEIGHT <= x <= MAX_WEIGHT);
        assert(-(64 * MAX_WEIGHT) <= c * x <= 64 * MAX_WEIGHT) by (nonlinear_arith)
            requires
                0 <= c <= 64,
                -MAX_WEIGHT <= x <= MAX_WEIGHT,
        ;
    }
    assert forall|k: nat| k <= 108 implies i32::MIN <= #[trigger] dot_sum(counts, w, k) <= i32::MAX by {
        lemma_dot_sum_bound(counts, w, k);
        assert(MAX_WEIGHT * count_sum(counts, k) <= MAX_WEIGHT * 192) by (nonlinear_arith)
            requires
                0 <= count_sum(counts, k) <= 192,
        ;
    }
    assert(MAX_WEIGHT * count_sum(counts, 108) <= MAX_WEIGHT * 192) by (nonlinear_arith)
        requires
            0 <= count_sum(counts, 108) <= 192,
    ;
}

/// The dot product of the feature counts with the weights, in cell order; a position where the
/// side to move is active on no square scores as lost now.
pub fn compute_dot_product<W: WeightLookup>(features: &FeatureMatrix, weight_lookup: &W) -> (r: EvaluationScore)
    requires
        weight_lookup.lookup_ready(),
        sums_fit(matrix_counts(*features), weight_lookup),
    ensures
        r == dot_score(matrix_counts(*features), weight_lookup),
{
    let ghost counts = matrix_counts(*features);
    let mut total_score: i32 = 0;
    let mut player_move_count: u8 = 0;
    let mut k: usize = 0;
    while k < 108
        invariant
            k <= 108,
            weight_lookup.lookup_ready(),
            counts == matrix_counts(*features),
            sums_fit(counts, weight_lookup),
            total_score == dot_sum(counts, weight_lookup, k as nat),
            player_move_count == active_cells(counts, k as nat),
        decreases 108 - k,
    {
        let t = k / 36;
        let s = (k / 6) % 6;
        let g = (k / 2) % 3;
        let p = k % 2;
        proof {
            assert(i32::MIN <= dot_sum(counts, weight_lookup, (k + 1) as nat) <= i32::MAX);
            assert(i32::MIN <= cell_product(counts, weight_lookup, k as int) <= i32::MAX);
            lemma_active_cells_le(counts, (k + 1) as nat);
            assert(counts(t as int, s as int, g as int, p as int) == features.cell(t as int, s as int, g as int, p as int));
        }
        let count = features.values[t][s][g][p] as i32;
        let weight = weight_lookup.weight(t, s, g, p);
        total_score = total_score + count * weight;
        let is_active_zone = !(s == 2 || s == 5);
        if is_active_zone && count > 0 {
            player_move_count = player_move_count + 1;
        }
        k = k + 1;
    }
    if player_move_count == 0 {
        EvaluationScore::Mated(0)
    } else {
        EvaluationScore::Value(total_score)
    }
}

/// The feature matrix of a position, seen from the side to move.
pub fn evaluate_state_features(state: &GameState, luts: &EngineLUTs) -> (r: FeatureMatrix)
    requires
        luts.wf(),
    ensures
        matrix_matches(r, allies_of(*state), enemies_of(*state)),
{
    let (allied_pieces, enemy_pieces) = state.get_player_pieces_relative();
    evaluate_position(allied_pieces, enemy_pieces, luts)
}

/// The feature counts of a position, from the side to move, flattened into 108 entries in
/// the order of the trainable weights (cell (t, s, g, p) at `flat_index`).
pub fn extract_feature_counts(state: &GameState, luts: &EngineLUTs) -> (r: Vec<u8>)
    requires
        luts.wf(),
    ensures
        r@.len() == 108,
        forall|t: int, s: int, g: int, p: int|
            0 <= t < 3 && 0 <= s < 6 && 0 <= g < 3 && 0 <= p < 2 ==> r@[flat_index(t, s, g, p)] as int
                == feature_count(allies_of(*state), enemies_of(*state), t, s, g, p),
{
    let matrix = evaluate_state_features(state, luts);
    let mut features: Vec<u8> = Vec::new();
    let mut t: usize = 0;
    while t < 3
        invariant
            t <= 3,
            matrix_matches(matrix, allies_of(*state), enemies_of(*state)),
            features@.len() == 36 * t,
            forall|t2: int, s2: int, g2: int, p2: int|
                0 <= t2 < t && 0 <= s2 < 6 && 0 <= g2 < 3 && 0 <= p2 < 2 ==> #[trigger] features@[flat_index(t2, s2, g2, p2)]
                    == matrix.cell(t2, s2, g2, p2),
        decreases 3 - t,
    {
        let mut s: usize = 0;
        while s < 6
            invariant
                t < 3,
                s <= 6,
                features@.len() == 36 * t + 6 * s,
                forall|t2: int, s2: int, g2: int, p2: int|
                    0 <= t2 < t && 0 <= s2 < 6 && 0 <= g2 < 3 && 0 <= p2 < 2 ==> #[trigger] features@[flat_index(t2, s2, g2, p2)]
                        == matrix.cell(t2, s2, g2, p2),
                forall|s2: int, g2: int, p2: int|
                    0 <= s2 < s && 0 <= g2 < 3 && 0 <= p2 < 2 ==> #[trigger] features@[flat_index(t as int, s2, g2, p2)]
                        == matrix.cell(t as int, s2, g2, p2),
            decreases 6 - s,
        {
            let mut g: usize = 0;
            while g < 3
                invariant
                    t < 3,
                    s < 6,
                    g <= 3,
                    features@.len() == 36 * t + 6 * s + 2 * g,
                    forall|t2: int, s2: int, g2: int, p2: int|
                        0 <= t2 < t && 0 <= s2 < 6 && 0 <= g2 < 3 && 0 <= p2 < 2 ==> #[trigger] features@[flat_index(t2, s2, g2, p2)]
                            == matrix.cell(t2, s2, g2, p2),
                    forall|s2: int, g2: int, p2: int|
                        0 <= s2 < s && 0 <= g2 < 3 && 0 <= p2 < 2 ==> #[trigger] features@[flat_index(t as int, s2, g2, p2)]
                            == matrix.cell(t as int, s2, g2, p2),
                    forall|g2: int, p2: int|
                        0 <= g2 < g && 0 <= p2 < 2 ==> #[trigger] features@[flat_index(t as int, s as int, g2, p2)]
                            == matrix.cell(t as int, s as int, g2, p2),
                decreases 3 - g,
            {
                features.push(matrix.values[t][s][g][0]);
                features.push(matrix.values[t][s][g][1]);
                g = g + 1;
            }
            s = s + 1;
        }
        t = t + 1;
    }
    features
}

// ============================================================================
// STATIC DOT-PRODUCT EVALUATOR
// ============================================================================

/// Weights for every feature cell [tile][sovereignty][region][parity].
#[derive(Clone, Copy, Debug)]
pub struct StaticDotProductEvaluatorWeights(pub [[[[i32; 2]; 3]; 6]; 3]);

impl core::ops::Deref for StaticDotProductEvaluatorWeights {
    type Target = [[[[i32; 2]; 3]; 6]; 3];

    /// The weights tensor.
    fn deref(&self) -> (r: &[[[[i32; 2]; 3]; 6]; 3])
        ensures
            *r == self.0,
    {
        &self.0
    }
}

impl core::ops::DerefMut for StaticDotProductEvaluatorWeights {
    /// The weights tensor, for changing.
    fn deref_mut(&mut self) -> (r: &mut [[[[i32; 2]; 3]; 6]; 3])
        ensures
            *r == old(self).0,
            final(self).0 == *final(r),
    {
        &mut self.0
    }
}

impl WeightLookup for StaticDotProductEvaluatorWeights {
    open spec fn spec_weight(&self, t: int, s: int, g: int, p: int) -> i32 {
        self.0@[t]@[s]@[g]@[p]
    }

    open spec fn lookup_ready(&self) -> bool {
        true
    }

    fn weight(&self, t: usize, s: usize, g: usize, p: usize) -> (w: i32) {
        self.0[t][s][g][p]
    }
}

/// Builds the weights tensor: the weight of (tile, sovereignty, region) is the prospect of
/// (sovereignty, tile) times the multiplier of the region, the same for both parities.
pub fn generate_weights(prospects: [[i32; 3]; 6], region_multipliers: [i32; 3]) -> (matrix: [[[[i32; 2]; 3]; 6]; 3])
    requires
        forall|s: int, t: int, g: int|
            0 <= s < 6 && 0 <= t < 3 && 0 <= g < 3 ==> i32::MIN <= #[trigger] (prospects@[s]@[t]
                * region_multipliers@[g]) <= i32::MAX,
    ensures
        forall|t: int, s: int, g: int, p: int|
            0 <= t < 3 && 0 <= s < 6 && 0 <= g < 3 && 0 <= p < 2 ==> #[trigger] matrix@[t]@[s]@[g]@[p]
                == prospects@[s]@[t] * region_multipliers@[g],
{
    let mut matrix = [[[[0i32; 2]; 3]; 6]; 3];
    let mut t: usize = 0;
    while t < 3
        invariant
            t <= 3,
            forall|s: int, t: int, g: int|
                0 <= s < 6 && 0 <= t < 3 && 0 <= g < 3 ==> i32::MIN <= #[trigger] (prospects@[s]@[t]
                    * region_multipliers@[g]) <= i32::MAX,
            forall|t2: int, s: int, g: int, p: int|
                0 <= t2 < t && 0 <= s < 6 && 0 <= g < 3 && 0 <= p < 2 ==> #[trigger] matrix@[t2]@[s]@[g]@[p]
                    == prospects@[s]@[t2] * region_multipliers@[g],
        decreases 3 - t,
    {
        let mut s: usize = 0;
        while s < 6
            invariant
                t < 3,
                s <= 6,
                forall|s: int, t: int, g: int|
                    0 <= s < 6 && 0 <= t < 3 && 0 <= g < 3 ==> i32::MIN <= #[trigger] (prospects@[s]@[t]
                        * region_multipliers@[g]) <= i32::MAX,
                forall|t2: int, s2: int, g: int, p: int|
                    0 <= t2 < 3 && 0 <= s2 < 6 && 0 <= g < 3 && 0 <= p < 2 && (t2 < t || (t2 == t && s2 < s))
                        ==> #[trigger] matrix@[t2]@[s2]@[g]@[p] == prospects@[s2]@[t2] * region_multipliers@[g],
            decreases 6 - s,
        {
            let ghost before = matrix;
            let mut r: usize = 0;
            while r < 3
                invariant
                    t < 3,
                    s < 6,
                    r <= 3,
                    forall|s: int, t: int, g: int|
                        0 <= s < 6 && 0 <= t < 3 && 0 <= g < 3 ==> i32::MIN <= #[trigger] (prospects@[s]@[t]
                            * region_multipliers@[g]) <= i32::MAX,
                    forall|t2: int, s2: int, g: int, p: int|
                        0 <= t2 < 3 && 0 <= s2 < 6 && 0 <= g < 3 && 0 <= p < 2 && (t2 < t || (t2 == t && s2 < s)
                            || (t2 == t && s2 == s && g < r))
                            ==> #[trigger] matrix@[t2]@[s2]@[g]@[p] == prospects@[s2]@[t2] * region_multipliers@[g],
                decreases 3 - r,
            {
                proof {
                    assert(i32::MIN <= prospects@[s as int]@[t as int] * region_multipliers@[r as int] <= i32::MAX);
                }
                let final_score = prospects[s][t] * region_multipliers[r];
                let ghost mid = matrix;
                matrix[t][s][r][0] = final_score;
                matrix[t][s][r][1] = final_score;
                proof {
                    assert forall|t2: int, s2: int, g: int, p: int|
                        0 <= t2 < 3 && 0 <= s2 < 6 && 0 <= g < 3 && 0 <= p < 2 && (t2 < t || (t2 == t && s2 < s)
                            || (t2 == t && s2 == s && g < r + 1))
                            implies #[trigger] matrix@[t2]@[s2]@[g]@[p] == prospects@[s2]@[t2] * region_multipliers@[g] by {
                        if !(t2 == t && s2 == s && g == r) {
                            assert(matrix@[t2]@[s2]@[g]@[p] == mid@[t2]@[s2]@[g]@[p]);
                        }
                    }
                }
                r = r + 1;
            }
            s = s + 1;
        }
        t = t + 1;
    }
    matrix
}

/// The default prospect of the sovereignty class `s` on the tile class `t`.
pub open spec fn default_prospect(s: int, t: int) -> int {
    seq![
        seq![3int, 50, -15],
        seq![1int, 45, 25],
        seq![0int, 40, 40],
        seq![0int, 35, -35],
        seq![-1int, 30, -45],
        seq![-3int, 20, -50],
    ][s][t]
}

/// The default multiplier of the region `g`: 10 for the corner blocks, 11 for the edge
/// blocks, 12 for the centre.
pub open spec fn default_multiplier(g: int) -> int {
    10 + g
}

/// The prospect of each (sovereignty, tile) pair used by the default weights.
pub fn default_prospects() -> (r: [[i32; 3]; 6])
    ensures
        forall|s: int, t: int| 0 <= s < 6 && 0 <= t < 3 ==> #[trigger] r@[s]@[t] == default_prospect(s, t),
        forall|s: int, t: int| 0 <= s < 6 && 0 <= t < 3 ==> -50 <= #[trigger] r@[s]@[t] <= 50,
{
    let r = [[3, 50, -15], [1, 45, 25], [0, 40, 40], [0, 35, -35], [-1, 30, -45], [-3, 20, -50]];
    assert(r@[0]@[0] == 3 && r@[0]@[1] == 50 && r@[0]@[2] == -15);
    assert(r@[1]@[0] == 1 && r@[1]@[1] == 45 && r@[1]@[2] == 25);
    assert(r@[2]@[0] == 0 && r@[2]@[1] == 40 && r@[2]@[2] == 40);
    assert(r@[3]@[0] == 0 && r@[3]@[1] == 35 && r@[3]@[2] == -35);
    assert(r@[4]@[0] == -1 && r@[4]@[1] == 30 && r@[4]@[2] == -45);
    assert(r@[5]@[0] == -3 && r@[5]@[1] == 20 && r@[5]@[2] == -50);
    r
}

/// The dot product can be taken over the counts of the position (`allies`, `enemies`)
/// without overflow, and its total is above the lowest value.
pub open spec fn fits_position<W: WeightLookup>(w: &W, allies: u64, enemies: u64) -> bool {
    &&& sums_fit(position_counts(allies, enemies), w)
    &&& i32::MIN < dot_sum(position_counts(allies, enemies), w, 108)
}

/// The dot product fits over every position.
pub open spec fn fits_every_position<W: WeightLookup>(w: &W) -> bool {
    forall|allies: u64, enemies: u64| #[trigger] fits_position(w, allies, enemies)
}

/// Weights within `MAX_WEIGHT` fit over every position.
pub proof fn lemma_bounded_weights_fit<W: WeightLookup>(w: &W)
    requires
        weights_bounded(w),
    ensures
        fits_every_position(w),
{
    assert forall|allies: u64, enemies: u64| #[trigger] fits_position(w, allies, enemies) by {
        lemma_position_sums_fit(w, allies, enemies);
    }
}

/// The default weights: the default prospects times the region multipliers 10, 11 and 12.
pub fn default_evaluator_weights() -> (r: StaticDotProductEvaluatorWeights)
    ensures
        forall|t: int, s: int, g: int, p: int|
            0 <= t < 3 && 0 <= s < 6 && 0 <= g < 3 && 0 <= p < 2 ==> #[trigger] r.0@[t]@[s]@[g]@[p]
                == default_prospect(s, t) * default_multiplier(g),
        forall|t: int, s: int, g: int, p: int|
            0 <= t < 3 && 0 <= s < 6 && 0 <= g < 3 && 0 <= p < 2 ==> -600 <= #[trigger] r.0@[t]@[s]@[g]@[p] <= 600,
        weights_bounded(&r),
{
    let prospects = default_prospects();
    let multipliers: [i32; 3] = [10, 11, 12];
    proof {
        assert forall|s: int, t: int, g: int| 0 <= s < 6 && 0 <= t < 3 && 0 <= g < 3 implies
            -600 <= #[trigger] (prospects@[s]@[t] * multipliers@[g]) <= 600 by {
            let a = prospects@[s]@[t];
            let b = multipliers@[g];
            assert(-50 <= a <= 50);
            assert(10 <= b <= 12);
            assert(-600 <= a * b <= 600) by (nonlinear_arith)
                requires
                    -50 <= a <= 50,
                    10 <= b <= 12,
            ;
        }
    }
    let w = StaticDotProductEvaluatorWeights(generate_weights(prospects, multipliers));
    proof {
        assert forall|t: int, s: int, g: int, p: int|
            0 <= t < 3 && 0 <= s < 6 && 0 <= g < 3 && 0 <= p < 2 implies -600 <= #[trigger] w.0@[t]@[s]@[g]@[p] <= 600 by {
            assert(-600 <= prospects@[s]@[t] * multipliers@[g] <= 600);
        }
        assert forall|t: int, s: int, g: int, p: int|
            0 <= t < 3 && 0 <= s < 6 && 0 <= g < 3 && 0 <= p < 2 implies #[trigger] w.0@[t]@[s]@[g]@[p]
                == default_prospect(s, t) * default_multiplier(g) by {
            assert(prospects@[s]@[t] == default_prospect(s, t));
            assert(multipliers@[g] == default_multiplier(g));
        }
    }
    w
}

/// The counts of a position's feature cells are at most 64.
pub proof fn lemma_position_counts_bounded(allies: u64, enemies: u64)
    ensures
        forall|t: int, s: int, g: int, p: int| 0 <= #[trigger] position_counts(allies, enemies)(t, s, g, p) <= 64,
{
    assert forall|t: int, s: int, g: int, p: int| 0 <= #[trigger] position_counts(allies, enemies)(t, s, g, p) <= 64 by {
        if 0 <= t < 3 && 0 <= s < 6 && 0 <= g < 3 && 0 <= p < 2 {
            lemma_popcount_le(feature_word(allies, enemies, t, s, g, p));
        }
    }
}

/// A dot-product evaluation over a position is a loss now or a value above the lowest one.
pub proof fn lemma_dot_score_plain<W: WeightLookup>(w: &W, allies: u64, enemies: u64)
    requires
        fits_position(w, allies, enemies),
    ensures
        ({
            let r = dot_score(position_counts(allies, enemies), w);
            (r is Value && r != EvaluationScore::Value(i32::MIN)) || r == EvaluationScore::Mated(0)
        }),
{
    assert(i32::MIN <= dot_sum(position_counts(allies, enemies), w, 108) <= i32::MAX);
}

/// The static evaluator reports no forced result but a loss now.
pub proof fn lemma_static_plain_leaves(ev: &StaticDotProductEvaluator)
    requires
        fits_every_position(&ev.weights),
    ensures
        crate::negamax::plain_leaves(ev),
{
    assert forall|q: GameState|
        #![trigger ev.spec_evaluate(q)]
        (ev.spec_evaluate(q) is Value && ev.spec_evaluate(q) != EvaluationScore::Value(i32::MIN))
            || ev.spec_evaluate(q) == EvaluationScore::Mated(0) by {
        assert(fits_position(&ev.weights, allies_of(q), enemies_of(q)));
        lemma_dot_score_plain(&ev.weights, allies_of(q), enemies_of(q));
    }
}

/// The trainable evaluator reports no forced result but a loss now.
pub proof fn lemma_trainable_plain_leaves(ev: &TrainableDotProductEvaluator)
    requires
        fits_every_position(ev),
    ensures
        crate::negamax::plain_leaves(ev),
{
    assert forall|q: GameState|
        #![trigger ev.spec_evaluate(q)]
        (ev.spec_evaluate(q) is Value && ev.spec_evaluate(q) != EvaluationScore::Value(i32::MIN))
            || ev.spec_evaluate(q) == EvaluationScore::Mated(0) by {
        assert(fits_position(ev, allies_of(q), enemies_of(q)));
        lemma_dot_score_plain(ev, allies_of(q), enemies_of(q));
    }
}

/// Scores positions by a fixed weights tensor over the feature counts.
pub struct StaticDotProductEvaluator {
    pub weights: StaticDotProductEvaluatorWeights,
    pub luts: EngineLUTs,
}

impl StaticDotProductEvaluator {
    /// An evaluator using the given weights; it is ready to evaluate when the dot product fits
    /// over every position, as it does when every weight is at most `MAX_WEIGHT` in magnitude.
    pub fn new(weights: StaticDotProductEvaluatorWeights) -> (r: Self)
        ensures
            r.weights == weights,
            r.luts.wf(),
            r.ready() == fits_every_position(&weights),
            weights_bounded(&weights) ==> r.ready(),
    {
        proof {
            if weights_bounded(&weights) {
                lemma_bounded_weights_fit(&weights);
            }
        }
        StaticDotProductEvaluator { weights, luts: EngineLUTs::new() }
    }

    /// The weights tensor built from prospects and region multipliers (see `generate_weights`).
    pub fn generate_weights(prospects: [[i32; 3]; 6], region_multipliers: [i32; 3]) -> (matrix: [[[[i32; 2]; 3]; 6]; 3])
        requires
            forall|s: int, t: int, g: int|
                0 <= s < 6 && 0 <= t < 3 && 0 <= g < 3 ==> i32::MIN <= #[trigger] (prospects@[s]@[t]
                    * region_multipliers@[g]) <= i32::MAX,
        ensures
            forall|t: int, s: int, g: int, p: int|
                0 <= t < 3 && 0 <= s < 6 && 0 <= g < 3 && 0 <= p < 2 ==> #[trigger] matrix@[t]@[s]@[g]@[p]
                    == prospects@[s]@[t] * region_multipliers@[g],
    {
        generate_weights(prospects, region_multipliers)
    }
}

impl PositionEvaluator for StaticDotProductEvaluator {
    open spec fn spec_evaluate(&self, state: GameState) -> EvaluationScore {
        dot_score(position_counts(allies_of(state), enemies_of(state)), &self.weights)
    }

    open spec fn ready(&self) -> bool {
        self.luts.wf() && fits_every_position(&self.weights)
    }

    fn evaluate(&self, state: &GameState) -> (r: EvaluationScore) {
        let features = evaluate_state_features(state, &self.luts);
        proof {
            lemma_feature_counts_bounded(features, allies_of(*state), enemies_of(*state));
            lemma_matrix_counts(features, allies_of(*state), enemies_of(*state));
            assert(fits_position(&self.weights, allies_of(*state), enemies_of(*state)));
        }
        compute_dot_product(&features, &self.weights)
    }
}

// ============================================================================
// TRAINABLE DOT-PRODUCT EVALUATOR
// ============================================================================

/// Scores positions by a flat vector of 108 weights, cell (t, s, g, p) at index
/// `p + 2 * (g + 3 * (s + 6 * t))`.
pub struct TrainableDotProductEvaluator {
    pub weights: Arc<Vec<i32>>,
    pub luts: EngineLUTs,
}

/// Flat index of a feature cell.
pub open spec fn flat_index(t: int, s: int, g: int, p: int) -> int {
    p + 2 * (g + 3 * (s + 6 * t))
}

impl WeightLookup for TrainableDotProductEvaluator {
    open spec fn spec_weight(&self, t: int, s: int, g: int, p: int) -> i32 {
        self.weights@[flat_index(t, s, g, p)]
    }

    open spec fn lookup_ready(&self) -> bool {
        self.weights@.len() == 108
    }

    fn weight(&self, t: usize, s: usize, g: usize, p: usize) -> (w: i32) {
        let flat_idx = p + 2 * (g + 3 * (s + 6 * t));
        self.weights[flat_idx]
    }
}

impl TrainableDotProductEvaluator {
    /// An evaluator over a vector of exactly 108 weights.
    pub fn new(weights: Arc<Vec<i32>>) -> (r: Self)
        requires
            weights@.len() == 108,
        ensures
            r.weights@ == weights@,
            r.luts.wf(),
            r.ready() == fits_every_position(&r),
            (forall|i: int| 0 <= i < 108 ==> -MAX_WEIGHT <= #[trigger] weights@[i] <= MAX_WEIGHT) ==> r.ready(),
    {
        let r = TrainableDotProductEvaluator { weights, luts: EngineLUTs::new() };
        proof {
            if forall|i: int| 0 <= i < 108 ==> -MAX_WEIGHT <= #[trigger] weights@[i] <= MAX_WEIGHT {
            assert forall|t: int, s: int, g: int, p: int|
                0 <= t < 3 && 0 <= s < 6 && 0 <= g < 3 && 0 <= p < 2 implies -MAX_WEIGHT <= #[trigger] r.spec_weight(t, s, g, p)
                    <= MAX_WEIGHT by {
                assert(0 <= flat_index(t, s, g, p) < 108);
            }
            lemma_bounded_weights_fit(&r);
            }
        }
        r
    }
}

impl PositionEvaluator for TrainableDotProductEvaluator {
    open spec fn spec_evaluate(&self, state: GameState) -> EvaluationScore {
        dot_score(position_counts(allies_of(state), enemies_of(state)), self)
    }

    open spec fn ready(&self) -> bool {
        self.luts.wf() && self.lookup_ready() && fits_every_position(self)
    }

    fn evaluate(&self, state: &GameState) -> (r: EvaluationScore) {
        let features = evaluate_state_features(state, &self.luts);
        proof {
            lemma_feature_counts_bounded(features, allies_of(*state), enemies_of(*state));
            lemma_matrix_counts(features, allies_of(*state), enemies_of(*state));
            assert(fits_position(self, allies_of(*state), enemies_of(*state)));
        }
        compute_dot_product(&features, self)
    }
}

// ============================================================================
// SIMPLE HEURISTIC EVALUATOR
// ============================================================================

/// Adjacent pairs of pieces in a word: horizontal, both diagonals and vertical neighbours.
pub open spec fn adjacency_score(board: u64) -> int {
    popcount(board & (board >> 1u64) & 0x7F7F7F7F7F7F7F7Fu64) as int + popcount(board & (board >> 7u64)
        & 0xFEFEFEFEFEFEFEFEu64) as int + popcount(board & (board >> 8u64)) as int + popcount(board & (
    board >> 9u64) & 0x7F7F7F7F7F7F7F7Fu64) as int
}

/// Centrality score of a word: 4, 5, 6 or 7 points per piece at distance 0, 1, 2 or 3 from
/// the border.
pub open spec fn centrality_score(luts: &EngineLUTs, board: u64) -> int {
    popcount(board & luts.centrality_rings@[0]) as int * 4 + popcount(board & luts.centrality_rings@[1]) as int
        * 5 + popcount(board & luts.centrality_rings@[2]) as int * 6 + popcount(
        board & luts.centrality_rings@[3],
    ) as int * 7
}

/// The simple heuristic value: material difference weighted by how far the game has
/// progressed (32 minus the pieces on the board) times 20, plus 10 per point of adjacency
/// difference, plus the centrality difference.
pub open spec fn simple_heuristic_value(luts: &EngineLUTs, allies: u64, enemies: u64) -> int {
    let a = popcount(allies) as int;
    let e = popcount(enemies) as int;
    (a - e) * (32 - (a + e)) * 20 + (adjacency_score(allies) - adjacency_score(enemies)) * 10 + (
    centrality_score(luts, allies) - centrality_score(luts, enemies))
}

/// Scores positions by material, piece connectivity and centrality.
pub struct SimpleHeuristicPositionEvaluator {
    pub luts: EngineLUTs,
}

/// Counts adjacent pairs of pieces.
fn calc_adjacency_score(board: Bitboard, luts: &EngineLUTs) -> (r: u32)
    requires
        luts.wf(),
    ensures
        r == adjacency_score(board.0),
        r <= 256,
{
    let b = board.0;
    proof {
        lemma_popcount_le(b & (b >> 1u64) & 0x7F7F7F7F7F7F7F7Fu64);
        lemma_popcount_le(b & (b >> 7u64) & 0xFEFEFEFEFEFEFEFEu64);
        lemma_popcount_le(b & (b >> 8u64));
        lemma_popcount_le(b & (b >> 9u64) & 0x7F7F7F7F7F7F7F7Fu64);
    }
    Bitboard(b & (b >> 1) & luts.not_h_file.0).count_ones() + Bitboard(b & (b >> 7) & luts.not_a_file.0).count_ones()
        + Bitboard(b & (b >> 8)).count_ones() + Bitboard(b & (b >> 9) & luts.not_h_file.0).count_ones()
}

/// Scores pieces by their distance to the border.
fn calc_centrality_score(board: Bitboard, luts: &EngineLUTs) -> (r: u32)
    requires
        luts.wf(),
    ensures
        r == centrality_score(luts, board.0),
        r <= 1408,
{
    let b = board.0;
    proof {
        lemma_popcount_le(b & luts.centrality_rings@[0]);
        lemma_popcount_le(b & luts.centrality_rings@[1]);
        lemma_popcount_le(b & luts.centrality_rings@[2]);
        lemma_popcount_le(b & luts.centrality_rings@[3]);
    }
    Bitboard(b & luts.centrality_rings[0]).count_ones() * 4 + Bitboard(b & luts.centrality_rings[1]).count_ones() * 5
        + Bitboard(b & luts.centrality_rings[2]).count_ones() * 6 + Bitboard(b & luts.centrality_rings[3]).count_ones() * 7
}

impl SimpleHeuristicPositionEvaluator {
    /// A ready evaluator.
    pub fn new() -> (r: Self)
        ensures
            r.ready(),
    {
        SimpleHeuristicPositionEvaluator { luts: EngineLUTs::new() }
    }
}

impl PositionEvaluator for SimpleHeuristicPositionEvaluator {
    open spec fn spec_evaluate(&self, state: GameState) -> EvaluationScore {
        EvaluationScore::Value(simple_heuristic_value(&self.luts, allies_of(state), enemies_of(state)) as i32)
    }

    open spec fn ready(&self) -> bool {
        self.luts.wf()
    }

    fn evaluate(&self, state: &GameState) -> (r: EvaluationScore) {
        let (allied_pieces, enemy_pieces) = state.get_player_pieces_relative();
        proof {
            lemma_popcount_le(allied_pieces.0);
            lemma_popcount_le(enemy_pieces.0);
        }
        let allied_piece_count = allied_pieces.count_ones() as i32;
        let enemy_piece_count = enemy_pieces.count_ones() as i32;
        let adjacency_diff = calc_adjacency_score(allied_pieces, &self.luts) as i32 - calc_adjacency_score(
            enemy_pieces,
            &self.luts,
        ) as i32;
        let piece_diff = allied_piece_count - enemy_piece_count;
        let progression_score = 32 - (allied_piece_count + enemy_piece_count);
        let centrality_diff = calc_centrality_score(allied_pieces, &self.luts) as i32 - calc_centrality_score(
            enemy_pieces,
            &self.luts,
        ) as i32;
        proof {
            assert(-64 <= piece_diff <= 64 && -96 <= progression_score <= 32);
            assert(-6144 <= piece_diff * progression_score <= 6144) by (nonlinear_arith)
                requires
                    -64 <= piece_diff <= 64,
                    -96 <= progression_score <= 32,
            ;
        }
        let product = piece_diff * progression_score;
        EvaluationScore::Value(product * 20 + adjacency_diff * 10 + centrality_diff)
    }
}

/// A word inside another counts no more squares.
proof fn lemma_popcount_subset(u: u64, w: u64)
    requires
        u & w == u,
    ensures
        popcount(u) <= popcount(w),
{
    let rest = w & !u;
    assert forall|i: u64| i < 64 implies bit_set(u, i) ==> bit_set(w, i) by {
        assert(bit_set(u & w, i) == (bit_set(u, i) && bit_set(w, i)));
    }
    assert forall|i: u64| i < 64 implies !bit_set(u & rest, i) by {}
    crate::bitboard::lemma_no_bits_zero(u & rest);
    assert forall|i: u64| i < 64 implies bit_set(u | rest, i) == bit_set(w, i) by {}
    crate::bitboard::lemma_bits_ext(u | rest, w);
    crate::bitboard::lemma_popcount_disjoint(u, rest);
}

/// The adjacent pairs of a word in one direction stay pairs in any word holding it.
proof fn lemma_pairs_grow(b: u64, c: u64, k: u64, m: u64)
    by (bit_vector)
    requires
        b & c == b,
    ensures
        (b & (b >> k) & m) & (c & (c >> k) & m) == b & (b >> k) & m,
{
}

/// Adding pieces never lowers a side's adjacency or centrality score.
proof fn lemma_scores_grow(luts: &EngineLUTs, b: u64, c: u64)
    requires
        b & c == b,
    ensures
        adjacency_score(b) <= adjacency_score(c),
        centrality_score(luts, b) <= centrality_score(luts, c),
{
    lemma_pairs_grow(b, c, 1, 0x7F7F7F7F7F7F7F7Fu64);
    lemma_pairs_grow(b, c, 7, 0xFEFEFEFEFEFEFEFEu64);
    lemma_pairs_grow(b, c, 9, 0x7F7F7F7F7F7F7F7Fu64);
    lemma_pairs_grow(b, c, 8, 0xFFFF_FFFF_FFFF_FFFFu64);
    assert forall|i: u64| i < 64 implies bit_set(b & (b >> 8u64), i) == bit_set(
        b & (b >> 8u64) & 0xFFFF_FFFF_FFFF_FFFFu64,
        i,
    ) && bit_set(c & (c >> 8u64), i) == bit_set(c & (c >> 8u64) & 0xFFFF_FFFF_FFFF_FFFFu64, i) by {}
    crate::bitboard::lemma_bits_ext(b & (b >> 8u64), b & (b >> 8u64) & 0xFFFF_FFFF_FFFF_FFFFu64);
    crate::bitboard::lemma_bits_ext(c & (c >> 8u64), c & (c >> 8u64) & 0xFFFF_FFFF_FFFF_FFFFu64);
    lemma_popcount_subset(b & (b >> 1u64) & 0x7F7F7F7F7F7F7F7Fu64, c & (c >> 1u64) & 0x7F7F7F7F7F7F7F7Fu64);
    lemma_popcount_subset(b & (b >> 7u64) & 0xFEFEFEFEFEFEFEFEu64, c & (c >> 7u64) & 0xFEFEFEFEFEFEFEFEu64);
    lemma_popcount_subset(b & (b >> 8u64), c & (c >> 8u64));
    lemma_popcount_subset(b & (b >> 9u64) & 0x7F7F7F7F7F7F7F7Fu64, c & (c >> 9u64) & 0x7F7F7F7F7F7F7F7Fu64);
    lemma_masked_grows(b, c, luts.centrality_rings@[0]);
    lemma_masked_grows(b, c, luts.centrality_rings@[1]);
    lemma_masked_grows(b, c, luts.centrality_rings@[2]);
    lemma_masked_grows(b, c, luts.centrality_rings@[3]);
}

/// Masking a word inside another keeps it inside the other's masked squares.
proof fn lemma_masked_grows(b: u64, c: u64, r: u64)
    requires
        b & c == b,
    ensures
        popcount(b & r) <= popcount(c & r),
{
    assert forall|i: u64| i < 64 implies bit_set((b & r) & (c & r), i) == bit_set(b & r, i) by {
        assert(bit_set(b & c, i) == bit_set(b, i));
    }
    crate::bitboard::lemma_bits_ext((b & r) & (c & r), b & r);
    lemma_popcount_subset(b & r, c & r);
}

/// The adjacency and centrality scores of a word are at most 256 and 1408.
proof fn lemma_scores_bounded(luts: &EngineLUTs, b: u64)
    ensures
        0 <= adjacency_score(b) <= 256,
        0 <= centrality_score(luts, b) <= 1408,
{
    lemma_popcount_le(b & (b >> 1u64) & 0x7F7F7F7F7F7F7F7Fu64);
    lemma_popcount_le(b & (b >> 7u64) & 0xFEFEFEFEFEFEFEFEu64);
    lemma_popcount_le(b & (b >> 8u64));
    lemma_popcount_le(b & (b >> 9u64) & 0x7F7F7F7F7F7F7F7Fu64);
    lemma_popcount_le(b & luts.centrality_rings@[0]);
    lemma_popcount_le(b & luts.centrality_rings@[1]);
    lemma_popcount_le(b & luts.centrality_rings@[2]);
    lemma_popcount_le(b & luts.centrality_rings@[3]);
}

/// The simple heuristic rewards material while the side to move has at most 15 pieces: a
/// position where that side has one piece more, on a square it did not hold, and everything
/// else the same, scores strictly higher for it (by at least 20).
pub proof fn lemma_simple_heuristic_material(ev: &SimpleHeuristicPositionEvaluator, s1: GameState, s2: GameState, sq: u64)
    requires
        sq < 64,
        !bit_set(allies_of(s1), sq),
        allies_of(s2) == allies_of(s1) | (1u64 << sq),
        enemies_of(s2) == enemies_of(s1),
        popcount(allies_of(s1)) <= 15,
    ensures
        ev.spec_evaluate(s1) is Value,
        ev.spec_evaluate(s2) is Value,
        ev.spec_evaluate(s2).rank() >= ev.spec_evaluate(s1).rank() + 20,
{
    let b = allies_of(s1);
    let c = allies_of(s2);
    let e = enemies_of(s1);
    crate::bitboard::lemma_popcount_insert(b, sq);
    assert forall|i: u64| i < 64 implies bit_set(b & c, i) == bit_set(b, i) by {}
    crate::bitboard::lemma_bits_ext(b & c, b);
    lemma_scores_grow(&ev.luts, b, c);
    lemma_scores_bounded(&ev.luts, b);
    lemma_scores_bounded(&ev.luts, c);
    lemma_scores_bounded(&ev.luts, e);
    lemma_popcount_le(e);
    let x = popcount(b) as int;
    let y = popcount(e) as int;
    assert((x + 1 - y) * (32 - (x + 1 + y)) * 20 - (x - y) * (32 - (x + y)) * 20 == 20 * (31 - 2 * x)) by (
    nonlinear_arith);
    assert(-122880 <= (x - y) * (32 - (x + y)) * 20 <= 122880) by (nonlinear_arith)
        requires
            0 <= x <= 64,
            0 <= y <= 64,
    ;
    assert(-122880 <= (x + 1 - y) * (32 - (x + 1 + y)) * 20 <= 122880) by (nonlinear_arith)
        requires
            0 <= x <= 15,
            0 <= y <= 64,
    ;
}

/// The simple heuristic is zero-sum: seen from the other side, a position scores the negation
/// of its score.
pub proof fn lemma_simple_heuristic_zero_sum(ev: &SimpleHeuristicPositionEvaluator, s1: GameState, s2: GameState)
    requires
        allies_of(s2) == enemies_of(s1),
        enemies_of(s2) == allies_of(s1),
    ensures
        ev.spec_evaluate(s1) is Value,
        ev.spec_evaluate(s2) is Value,
        ev.spec_evaluate(s2).rank() == -ev.spec_evaluate(s1).rank(),
{
    let b = allies_of(s1);
    let e = enemies_of(s1);
    lemma_scores_bounded(&ev.luts, b);
    lemma_scores_bounded(&ev.luts, e);
    lemma_popcount_le(b);
    lemma_popcount_le(e);
    let x = popcount(b) as int;
    let y = popcount(e) as int;
    assert((y - x) * (32 - (y + x)) * 20 == -((x - y) * (32 - (x + y)) * 20)) by (nonlinear_arith);
    assert(-122880 <= (x - y) * (32 - (x + y)) * 20 <= 122880) by (nonlinear_arith)
        requires
            0 <= x <= 64,
            0 <= y <= 64,
    ;
}

/// The dot product is additive in the weights: weights that add up cell by cell give products
/// that add up.
pub proof fn lemma_dot_sum_additive<A: WeightLookup, B: WeightLookup, C: WeightLookup>(
    counts: spec_fn(int, int, int, int) -> int,
    a: &A,
    b: &B,
    c: &C,
    k: nat,
)
    requires
        forall|t: int, s: int, g: int, p: int|
            #[trigger] c.spec_weight(t, s, g, p) == a.spec_weight(t, s, g, p) + b.spec_weight(t, s, g, p),
    ensures
        dot_sum(counts, c, k) == dot_sum(counts, a, k) + dot_sum(counts, b, k),
    decreases k,
{
    if k > 0 {
        lemma_dot_sum_additive(counts, a, b, c, (k - 1) as nat);
        let j = k - 1;
        let n = counts(cell_t(j), cell_s(j), cell_g(j), cell_p(j));
        let x = a.spec_weight(cell_t(j), cell_s(j), cell_g(j), cell_p(j)) as int;
        let y = b.spec_weight(cell_t(j), cell_s(j), cell_g(j), cell_p(j)) as int;
        assert(c.spec_weight(cell_t(j), cell_s(j), cell_g(j), cell_p(j)) == x + y);
        assert(n * (x + y) == n * x + n * y) by (nonlinear_arith);
    }
}

/// The cells are numbered in row-major order: the `j`-th cell has flat index `j`, and the
/// cell with flat index `flat_index(t, s, g, p)` is (t, s, g, p).
proof fn lemma_cell_numbering(j: int, t: int, s: int, g: int, p: int)
    requires
        0 <= j < 108,
        0 <= t < 3,
        0 <= s < 6,
        0 <= g < 3,
        0 <= p < 2,
    ensures
        (cell_t(j) == t && cell_s(j) == s && cell_g(j) == g && cell_p(j) == p) <==> j == flat_index(t, s, g, p),
{
    assert(j == flat_index(cell_t(j), cell_s(j), cell_g(j), cell_p(j))) by (nonlinear_arith)
        requires
            0 <= j < 108,
    ;
    let f = flat_index(t, s, g, p);
    assert(cell_t(f) == t && cell_s(f) == s && cell_g(f) == g && cell_p(f) == p) by (nonlinear_arith)
        requires
            f == p + 2 * (g + 3 * (s + 6 * t)),
            0 <= t < 3,
            0 <= s < 6,
            0 <= g < 3,
            0 <= p < 2,
    ;
}

/// Over weights that are one on the cell (t, s, g, p) and zero elsewhere, the sum of the
/// first `k` products is that cell's count when the cell is among them, and zero otherwise.
proof fn lemma_dot_sum_unit<W: WeightLookup>(
    counts: spec_fn(int, int, int, int) -> int,
    w: &W,
    t: int,
    s: int,
    g: int,
    p: int,
    k: nat,
)
    requires
        0 <= t < 3,
        0 <= s < 6,
        0 <= g < 3,
        0 <= p < 2,
        k <= 108,
        forall|t2: int, s2: int, g2: int, p2: int|
            #[trigger] w.spec_weight(t2, s2, g2, p2) == if t2 == t && s2 == s && g2 == g && p2 == p {
                1i32
            } else {
                0i32
            },
    ensures
        dot_sum(counts, w, k) == if flat_index(t, s, g, p) < k {
            counts(t, s, g, p)
        } else {
            0
        },
    decreases k,
{
    if k > 0 {
        lemma_dot_sum_unit(counts, w, t, s, g, p, (k - 1) as nat);
        lemma_cell_numbering(k - 1, t, s, g, p);
        let j = k - 1;
        let n = counts(cell_t(j), cell_s(j), cell_g(j), cell_p(j));
        assert(n * 1 == n && n * 0 == 0);
    }
}

/// The dot-product score reads each cell's count through its weight: with weight one on a
/// single cell and zero on all others, a position where the side to move is active scores that
/// cell's count. Together with additivity this fixes the score as the sum of count times
/// weight over the cells.
pub proof fn lemma_dot_score_unit<W: WeightLookup>(
    counts: spec_fn(int, int, int, int) -> int,
    w: &W,
    t: int,
    s: int,
    g: int,
    p: int,
)
    requires
        0 <= t < 3,
        0 <= s < 6,
        0 <= g < 3,
        0 <= p < 2,
        0 <= counts(t, s, g, p) <= 64,
        active_cells(counts, 108) != 0,
        forall|t2: int, s2: int, g2: int, p2: int|
            #[trigger] w.spec_weight(t2, s2, g2, p2) == if t2 == t && s2 == s && g2 == g && p2 == p {
                1i32
            } else {
                0i32
            },
    ensures
        dot_score(counts, w) == EvaluationScore::Value(counts(t, s, g, p) as i32),
{
    lemma_dot_sum_unit(counts, w, t, s, g, p, 108);
    assert(flat_index(t, s, g, p) < 108);
}

// ============================================================================
// LAWS
// ============================================================================

/// The evaluators see a position only through the side to move's pieces and the other side's
/// pieces: two positions with the same pieces for the side to move and for its opponent get
/// the same score, whichever player is to move in each.
pub proof fn lemma_evaluation_perspective_invariant(s1: GameState, s2: GameState, e1: StaticDotProductEvaluator,
    e2: TrainableDotProductEvaluator, e3: SimpleHeuristicPositionEvaluator)
    requires
        allies_of(s1) == allies_of(s2),
        enemies_of(s1) == enemies_of(s2),
    ensures
        e1.spec_evaluate(s1) == e1.spec_evaluate(s2),
        e2.spec_evaluate(s1) == e2.spec_evaluate(s2),
        e3.spec_evaluate(s1) == e3.spec_evaluate(s2),
{
}

/// The feature matrix of a position depends only on the side to move's pieces and the other
/// side's pieces, so mirrored positions (pieces and turn swapped) have equal features.
pub proof fn lemma_features_perspective_invariant(s1: GameState, s2: GameState, m1: FeatureMatrix,
    m2: FeatureMatrix)
    requires
        allies_of(s1) == allies_of(s2),
        enemies_of(s1) == enemies_of(s2),
        matrix_matches(m1, allies_of(s1), enemies_of(s1)),
        matrix_matches(m2, allies_of(s2), enemies_of(s2)),
    ensures
        forall|t: int, s: int, g: int, p: int|
            0 <= t < 3 && 0 <= s < 6 && 0 <= g < 3 && 0 <= p < 2 ==> #[trigger] m1.cell(t, s, g, p) == m2.cell(
                t,
                s,
                g,
                p,
            ),
{
    assert forall|t: int, s: int, g: int, p: int|
        0 <= t < 3 && 0 <= s < 6 && 0 <= g < 3 && 0 <= p < 2 implies #[trigger] m1.cell(t, s, g, p) == m2.cell(t, s, g, p) by {
        assert(m1.cell(t, s, g, p) == feature_count(allies_of(s1), enemies_of(s1), t, s, g, p));
        assert(m2.cell(t, s, g, p) == feature_count(allies_of(s2), enemies_of(s2), t, s, g, p));
    }
}

/// Parity has no effect on the generated weights: both colour columns are equal.
pub proof fn lemma_generated_weights_ignore_parity(prospects: [[i32; 3]; 6], region_multipliers: [i32; 3],
    matrix: [[[[i32; 2]; 3]; 6]; 3], t: int, s: int, g: int)
    requires
        0 <= t < 3 && 0 <= s < 6 && 0 <= g < 3,
        forall|t: int, s: int, g: int, p: int|
            0 <= t < 3 && 0 <= s < 6 && 0 <= g < 3 && 0 <= p < 2 ==> #[trigger] matrix@[t]@[s]@[g]@[p]
                == prospects@[s]@[t] * region_multipliers@[g],
    ensures
        matrix@[t]@[s]@[g]@[0] == matrix@[t]@[s]@[g]@[1],
{
    assert(matrix@[t]@[s]@[g]@[0] == prospects@[s]@[t] * region_multipliers@[g]);
    assert(matrix@[t]@[s]@[g]@[1] == prospects@[s]@[t] * region_multipliers@[g]);
}

} // verus!
