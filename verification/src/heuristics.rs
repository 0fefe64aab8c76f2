use vstd::prelude::*;
use crate::bitboard::{group_bits, bit_set, count_below, lowest_bit, popcount, word_of, Bitboard, lemma_clear_lowest,
    lemma_lowest_bit, lemma_bits_ext, lemma_word_of, lemma_popcount_le};
use crate::luts::{EngineLUTs, RegionalMasks, ParityMasks, king_adjacent, centrality};
use crate::movegen::{generate_piece_moves, move_mask};
use crate::moves::Move;

verus! {

broadcast use group_bits;

// ============================================================================
// FEATURE DIMENSIONS
// ============================================================================

/// The occupancy of a square at the start of the evaluation pass.
#[derive(Clone, Copy, PartialEq, Eq, Structural, Debug)]
pub enum TileType {
    Empty,
    AlliedPiece,
    EnemyPiece,
}

/// Who controls a square, comparing the control depth of both sides.
#[derive(Clone, Copy, PartialEq, Eq, Structural, Debug)]
pub enum SovereigntyState {
    AllyUncontested,
    AllyDominates,
    NoConflict,
    TiedConflict,
    EnemyDominates,
    EnemyUncontested,
}

/// The fixed geometric region of a square.
#[derive(Clone, Copy, PartialEq, Eq, Structural, Debug)]
pub enum RegionType {
    Corner2x2,
    Edge4x2,
    Center4x4,
}

/// The checkerboard colour of a square.
#[derive(Clone, Copy, PartialEq, Eq, Structural, Debug)]
pub enum ParityType {
    Even,
    Odd,
}

impl TileType {
    /// Position of the variant in the feature tensor.
    pub open spec fn spec_index(self) -> int {
        match self {
            TileType::Empty => 0,
            TileType::AlliedPiece => 1,
            TileType::EnemyPiece => 2,
        }
    }

    /// Position of the variant in the feature tensor.
    pub fn index(self) -> (r: usize)
        ensures
            r == self.spec_index(),
            r < 3,
    {
        match self {
            TileType::Empty => 0,
            TileType::AlliedPiece => 1,
            TileType::EnemyPiece => 2,
        }
    }
}

impl SovereigntyState {
    /// Position of the variant in the feature tensor.
    pub open spec fn spec_index(self) -> int {
        match self {
            SovereigntyState::AllyUncontested => 0,
            SovereigntyState::AllyDominates => 1,
            SovereigntyState::NoConflict => 2,
            SovereigntyState::TiedConflict => 3,
            SovereigntyState::EnemyDominates => 4,
            SovereigntyState::EnemyUncontested => 5,
        }
    }

    /// Position of the variant in the feature tensor.
    pub fn index(self) -> (r: usize)
        ensures
            r == self.spec_index(),
            r < 6,
    {
        match self {
            SovereigntyState::AllyUncontested => 0,
            SovereigntyState::AllyDominates => 1,
            SovereigntyState::NoConflict => 2,
            SovereigntyState::TiedConflict => 3,
            SovereigntyState::EnemyDominates => 4,
            SovereigntyState::EnemyUncontested => 5,
        }
    }
}

impl RegionType {
    /// Position of the variant in the feature tensor.
    pub open spec fn spec_index(self) -> int {
        match self {
            RegionType::Corner2x2 => 0,
            RegionType::Edge4x2 => 1,
            RegionType::Center4x4 => 2,
        }
    }

    /// Position of the variant in the feature tensor.
    pub fn index(self) -> (r: usize)
        ensures
            r == self.spec_index(),
    {
        match self {
            RegionType::Corner2x2 => 0,
            RegionType::Edge4x2 => 1,
            RegionType::Center4x4 => 2,
        }
    }
}

impl ParityType {
    /// Position of the variant in the feature tensor.
    pub open spec fn spec_index(self) -> int {
        match self {
            ParityType::Even => 0,
            ParityType::Odd => 1,
        }
    }

    /// Position of the variant in the feature tensor.
    pub fn index(self) -> (r: usize)
        ensures
            r == self.spec_index(),
    {
        match self {
            ParityType::Even => 0,
            ParityType::Odd => 1,
        }
    }
}

/// The region mask with the given tensor index.
pub open spec fn region_word(r: int) -> u64 {
    if r == 0 {
        0xC3C300000000C3C3u64
    } else if r == 1 {
        0x3C3CC3C3C3C33C3Cu64
    } else {
        0x00003C3C3C3C0000u64
    }
}

/// The parity mask with the given tensor index.
pub open spec fn parity_word(p: int) -> u64 {
    if p == 0 {
        0x55AA55AA55AA55AAu64
    } else {
        0xAA55AA55AA55AA55u64
    }
}

impl RegionalMasks {
    /// The mask of the given region.
    pub fn get(&self, region: RegionType) -> (r: Bitboard)
        ensures
            r == (match region {
                RegionType::Corner2x2 => self.corners,
                RegionType::Edge4x2 => self.edges,
                RegionType::Center4x4 => self.center,
            }),
    {
        match region {
            RegionType::Corner2x2 => self.corners,
            RegionType::Edge4x2 => self.edges,
            RegionType::Center4x4 => self.center,
        }
    }
}

impl ParityMasks {
    /// The mask of the given colour.
    pub fn get(&self, parity: ParityType) -> (r: Bitboard)
        ensures
            r == (match parity {
                ParityType::Even => self.even,
                ParityType::Odd => self.odd,
            }),
    {
        match parity {
            ParityType::Even => self.even,
            ParityType::Odd => self.odd,
        }
    }
}

// ============================================================================
// PIPELINE DATA STRUCTURES
// ============================================================================

/// Per-square control counters of one side, one bit plane per binary digit: the ones, the
/// twos, and a sticky plane set once a square reaches four controllers.
#[derive(Clone, Copy, Debug)]
pub struct VerticalDensityMap {
    pub layer_0: Bitboard,
    pub layer_1: Bitboard,
    pub layer_2: Bitboard,
}

/// The union of the move masks of one side's pieces.
#[derive(Clone, Copy, Debug)]
pub struct StructuralMoveMap {
    pub collective_moves: Bitboard,
}

/// The control data gathered for one side in a single pass over its pieces.
#[derive(Clone, Copy, Debug)]
pub struct IntermediateBatch {
    pub union_map: StructuralMoveMap,
    pub density: VerticalDensityMap,
}

/// Signed feature weights or scores over the 108 feature cells
/// [tile type][sovereignty][region][parity].
#[derive(Clone, Copy, Debug)]
pub struct HeuristicMatrix {
    pub values: [[[[i16; 2]; 3]; 6]; 3],
}

impl HeuristicMatrix {
    /// The all-zero matrix.
    pub fn new() -> (r: Self)
        ensures
            forall|t: int, s: int, g: int, p: int|
                0 <= t < 3 && 0 <= s < 6 && 0 <= g < 3 && 0 <= p < 2 ==> r.values@[t]@[s]@[g]@[p] == 0,
    {
        HeuristicMatrix { values: [[[[0i16; 2]; 3]; 6]; 3] }
    }
}

/// Square counts over the 108 feature cells [tile type][sovereignty][region][parity].
#[derive(Clone, Copy, Debug)]
pub struct FeatureMatrix {
    pub values: [[[[u8; 2]; 3]; 6]; 3],
}

impl FeatureMatrix {
    /// The count of one feature cell.
    pub open spec fn cell(self, t: int, s: int, g: int, p: int) -> u8 {
        self.values@[t]@[s]@[g]@[p]
    }

    /// The all-zero matrix.
    pub fn new() -> (r: Self)
        ensures
            forall|t: int, s: int, g: int, p: int|
                0 <= t < 3 && 0 <= s < 6 && 0 <= g < 3 && 0 <= p < 2 ==> r.cell(t, s, g, p) == 0,
    {
        FeatureMatrix { values: [[[[0u8; 2]; 3]; 6]; 3] }
    }
}

// ============================================================================
// SPECIFICATION OF THE FEATURES
// ============================================================================

/// How many pieces of `movers` have `sq` in their control map (their move mask with allied
/// squares kept), with `base` as their side and `targets` as the other side.
pub open spec fn control_count(movers: u64, base: u64, targets: u64, sq: u64) -> nat
    decreases movers,
{
    if movers == 0 {
        0
    } else {
        let p = lowest_bit(movers);
        proof {
            lemma_clear_lowest(movers);
        }
        (if bit_set(move_mask(base, targets, p as int, true), sq) {
            1nat
        } else {
            0nat
        }) + control_count(movers & ((movers - 1) as u64), base, targets, sq)
    }
}

/// The value the three counter planes hold after `c` increments: exact up to 7, where the
/// counter saturates.
pub open spec fn density_value(c: nat) -> nat {
    if c < 7 {
        c
    } else {
        7
    }
}

/// The counter value of the side `pieces` on `sq`, facing `others`.
pub open spec fn side_density(pieces: u64, others: u64, sq: u64) -> nat {
    density_value(control_count(pieces, pieces, others, sq))
}

/// The sovereignty index of a square from the two counter values.
pub open spec fn sovereignty_of(da: nat, db: nat) -> int {
    if da > db {
        if db == 0 {
            0
        } else {
            1
        }
    } else if da == db {
        if da == 0 {
            2
        } else {
            3
        }
    } else {
        if da == 0 {
            5
        } else {
            4
        }
    }
}

/// Whether `sq` is in the tile class `t`: 0 empty, 1 allied, 2 enemy.
pub open spec fn in_tile(t: int, allies: u64, enemies: u64, sq: u64) -> bool {
    if t == 0 {
        !bit_set(allies, sq) && !bit_set(enemies, sq)
    } else if t == 1 {
        bit_set(allies, sq)
    } else {
        bit_set(enemies, sq)
    }
}

/// Whether `sq` falls in the feature cell (t, s, g, p).
pub open spec fn feature_cell(allies: u64, enemies: u64, t: int, s: int, g: int, p: int, sq: u64) -> bool {
    &&& in_tile(t, allies, enemies, sq)
    &&& sovereignty_of(side_density(allies, enemies, sq), side_density(enemies, allies, sq)) == s
    &&& bit_set(region_word(g), sq)
    &&& bit_set(parity_word(p), sq)
}

/// The squares of a feature cell, as a word.
pub open spec fn feature_word(allies: u64, enemies: u64, t: int, s: int, g: int, p: int) -> u64 {
    word_of(|sq: u64| feature_cell(allies, enemies, t, s, g, p, sq), 64)
}

/// The number of squares in a feature cell.
pub open spec fn feature_count(allies: u64, enemies: u64, t: int, s: int, g: int, p: int) -> nat {
    popcount(feature_word(allies, enemies, t, s, g, p))
}

/// The matrix holds the feature counts of the position (allies to move).
pub open spec fn matrix_matches(m: FeatureMatrix, allies: u64, enemies: u64) -> bool {
    forall|t: int, s: int, g: int, p: int|
        0 <= t < 3 && 0 <= s < 6 && 0 <= g < 3 && 0 <= p < 2 ==> #[trigger] m.cell(t, s, g, p)
            == feature_count(allies, enemies, t, s, g, p)
}

/// The squares of the first `j` feature cells of the tile class `t`, cells taken in
/// sovereignty, region, parity order.
pub open spec fn tile_cells_word(allies: u64, enemies: u64, t: int, j: int) -> u64
    decreases j,
{
    if j <= 0 {
        0
    } else {
        tile_cells_word(allies, enemies, t, j - 1) | feature_word(allies, enemies, t, (j - 1) / 6, ((j - 1) / 2) % 3, (j - 1) % 2)
    }
}

/// The number of squares in the first `j` feature cells of the tile class `t`.
pub open spec fn tile_cells_count(allies: u64, enemies: u64, t: int, j: int) -> int
    decreases j,
{
    if j <= 0 {
        0
    } else {
        tile_cells_count(allies, enemies, t, j - 1) + feature_count(allies, enemies, t, (j - 1) / 6, ((j - 1) / 2) % 3, (j - 1) % 2)
    }
}

/// A square lies in the union of the first `j` cells of a tile class exactly when it lies in
/// one of them.
proof fn lemma_tile_cells_bits(allies: u64, enemies: u64, t: int, j: int, sq: u64)
    requires
        0 <= j <= 36,
        sq < 64,
    ensures
        bit_set(tile_cells_word(allies, enemies, t, j), sq) ==> exists|i: int|
            0 <= i < j && #[trigger] feature_cell(allies, enemies, t, i / 6, (i / 2) % 3, i % 2, sq),
    decreases j,
{
    broadcast use group_bits;

    if j > 0 {
        lemma_tile_cells_bits(allies, enemies, t, j - 1, sq);
        let i = j - 1;
        lemma_word_of(|q: u64| feature_cell(allies, enemies, t, i / 6, (i / 2) % 3, i % 2, q), 64);
    }
}

/// A square lies in at most one feature cell of a tile class.
proof fn lemma_cell_unique(allies: u64, enemies: u64, t: int, i1: int, i2: int, sq: u64)
    requires
        0 <= i1 < 36,
        0 <= i2 < 36,
        sq < 64,
        feature_cell(allies, enemies, t, i1 / 6, (i1 / 2) % 3, i1 % 2, sq),
        feature_cell(allies, enemies, t, i2 / 6, (i2 / 2) % 3, i2 % 2, sq),
    ensures
        i1 == i2,
{
    broadcast use group_bits;

    crate::luts::lemma_regions_partition();
    crate::luts::lemma_parities_partition(sq);
    assert(i1 == 6 * (i1 / 6) + 2 * ((i1 / 2) % 3) + i1 % 2) by (nonlinear_arith)
        requires
            0 <= i1 < 36,
    ;
    assert(i2 == 6 * (i2 / 6) + 2 * ((i2 / 2) % 3) + i2 % 2) by (nonlinear_arith)
        requires
            0 <= i2 < 36,
    ;
    assert(0 <= (i1 / 2) % 3 < 3 && 0 <= (i2 / 2) % 3 < 3);
    assert(i1 % 2 == i2 % 2) by {
        if i1 % 2 != i2 % 2 {
            assert(!bit_set(0x55AA55AA55AA55AAu64 & 0xAA55AA55AA55AA55u64, sq));
        }
    }
    assert((i1 / 2) % 3 == (i2 / 2) % 3) by {
        assert(!bit_set(0xC3C300000000C3C3u64 & 0x3C3CC3C3C3C33C3Cu64, sq));
        assert(!bit_set(0xC3C300000000C3C3u64 & 0x00003C3C3C3C0000u64, sq));
        assert(!bit_set(0x3C3CC3C3C3C33C3Cu64 & 0x00003C3C3C3C0000u64, sq));
    }
}

/// The cells of one tile class hold at most the 64 squares of the board between them.
pub proof fn lemma_tile_cells_count(allies: u64, enemies: u64, t: int, j: int)
    requires
        0 <= j <= 36,
    ensures
        tile_cells_count(allies, enemies, t, j) == popcount(tile_cells_word(allies, enemies, t, j)),
        0 <= tile_cells_count(allies, enemies, t, j) <= 64,
    decreases j,
{
    broadcast use group_bits;

    if j > 0 {
        lemma_tile_cells_count(allies, enemies, t, j - 1);
        let i = j - 1;
        let u = tile_cells_word(allies, enemies, t, i);
        let w = feature_word(allies, enemies, t, i / 6, (i / 2) % 3, i % 2);
        lemma_word_of(|q: u64| feature_cell(allies, enemies, t, i / 6, (i / 2) % 3, i % 2, q), 64);
        assert forall|sq: u64| sq < 64 implies !bit_set(u & w, sq) by {
            lemma_tile_cells_bits(allies, enemies, t, i, sq);
            if bit_set(u, sq) && bit_set(w, sq) {
                let i0 = choose|i0: int| 0 <= i0 < i && #[trigger] feature_cell(allies, enemies, t, i0 / 6, (i0 / 2) % 3, i0 % 2, sq);
                lemma_cell_unique(allies, enemies, t, i0, i, sq);
            }
        }
        crate::bitboard::lemma_no_bits_zero(u & w);
        crate::bitboard::lemma_count_below_disjoint(u, w, 64);
        lemma_popcount_le(u | w);
        assert(tile_cells_word(allies, enemies, t, j) == u | w);
        assert(tile_cells_count(allies, enemies, t, j) == tile_cells_count(allies, enemies, t, i) + popcount(w));
    } else {
        crate::bitboard::lemma_no_bits_zero(0u64 & 0u64);
        crate::bitboard::lemma_no_bits_zero(0u64 | 0u64);
        crate::bitboard::lemma_count_below_disjoint(0u64, 0u64, 64);
    }
}

/// The batch holds the control counters and control union of `movers` facing `targets`.
pub open spec fn batch_describes(batch: IntermediateBatch, movers: u64, targets: u64) -> bool {
    forall|sq: u64| sq < 64 ==> #[trigger] batch_square(batch, movers, targets, sq)
}

/// The batch holds the control counter and control union of `movers` on `sq`.
pub open spec fn batch_square(batch: IntermediateBatch, movers: u64, targets: u64, sq: u64) -> bool {
    let c = control_count(movers, movers, targets, sq);
    let d = density_value(c);
    &&& bit_set(batch.density.layer_0.0, sq) == (d % 2 == 1)
    &&& bit_set(batch.density.layer_1.0, sq) == ((d / 2) % 2 == 1)
    &&& bit_set(batch.density.layer_2.0, sq) == (d >= 4)
    &&& bit_set(batch.union_map.collective_moves.0, sq) == (c > 0)
}

// ============================================================================
// EVALUATION PIPELINE
// ============================================================================

/// The neighbour-density of a word around `square`: how many of its squares touch `square`.
pub open spec fn neighbour_count(luts: &EngineLUTs, square: int, pieces: u64) -> int {
    popcount(luts.moore_neighborhood_lut@[square].0 & pieces) as int
}

/// The ordering key of a move (lower sorts first): minus the gain in allied neighbours times
/// 50, minus 5000 plus 100 per enemy neighbour of the destination for a capture, minus the
/// gain in centrality.
pub open spec fn move_order_key(luts: &EngineLUTs, from: int, to: int, allied: u64, enemy: u64) -> int {
    let gain = (neighbour_count(luts, to, allied) - neighbour_count(luts, from, allied)) * 50;
    let capture = if bit_set(enemy, to as u64) {
        5000 + neighbour_count(luts, to, enemy) * 100
    } else {
        0
    };
    -(gain + capture + (luts.centrality_lut@[to] as int - luts.centrality_lut@[from] as int))
}

/// How many of the eight squares around `s` lie below `n`.
spec fn around_below(s: int, n: int) -> int {
    (if 0 <= s - 9 < n { 1int } else { 0int }) + (if 0 <= s - 8 < n { 1int } else { 0int }) + (if 0 <= s - 7
        < n { 1int } else { 0int }) + (if 0 <= s - 1 < n { 1int } else { 0int }) + (if 0 <= s + 1 < n {
        1int
    } else {
        0int
    }) + (if 0 <= s + 7 < n { 1int } else { 0int }) + (if 0 <= s + 8 < n { 1int } else { 0int }) + (if 0 <= s
        + 9 < n { 1int } else { 0int })
}

proof fn lemma_adjacent_count_below(x: u64, s: int, n: nat)
    requires
        0 <= s < 64,
        n <= 64,
        forall|t: u64| t < 64 && #[trigger] bit_set(x, t) ==> king_adjacent(s, t as int),
    ensures
        count_below(x, n) <= around_below(s, n as int),
    decreases n,
{
    if n > 0 {
        lemma_adjacent_count_below(x, s, (n - 1) as nat);
        let t = (n - 1) as u64;
        if bit_set(x, t) {
            assert(king_adjacent(s, t as int));
            assert(t as int == s - 9 || t as int == s - 8 || t as int == s - 7 || t as int == s - 1 || t as int == s + 1
                || t as int == s + 7 || t as int == s + 8 || t as int == s + 9);
        }
    }
}

/// At most eight pieces stand around a square.
pub proof fn lemma_neighbour_count_le(luts: &EngineLUTs, square: int, pieces: u64)
    requires
        luts.wf(),
        0 <= square < 64,
    ensures
        0 <= neighbour_count(luts, square, pieces) <= 8,
{
    broadcast use crate::bitboard::group_bits;

    let w = luts.moore_neighborhood_lut@[square].0 & pieces;
    assert forall|t: u64| t < 64 && #[trigger] bit_set(w, t) implies king_adjacent(square, t as int) by {
        assert(bit_set(luts.moore_neighborhood_lut@[square].0, t));
    }
    lemma_adjacent_count_below(w, square, 64);
}

/// A capture always sorts before a quiet move of the same position: the capture bonus
/// outweighs any difference in neighbours and centrality.
pub proof fn lemma_captures_sort_first(
    luts: &EngineLUTs,
    capture_from: int,
    capture_to: int,
    quiet_from: int,
    quiet_to: int,
    allied: u64,
    enemy: u64,
)
    requires
        luts.wf(),
        0 <= capture_from < 64,
        0 <= capture_to < 64,
        0 <= quiet_from < 64,
        0 <= quiet_to < 64,
        bit_set(enemy, capture_to as u64),
        !bit_set(enemy, quiet_to as u64),
    ensures
        move_order_key(luts, capture_from, capture_to, allied, enemy) < move_order_key(
            luts,
            quiet_from,
            quiet_to,
            allied,
            enemy,
        ),
{
    lemma_neighbour_count_le(luts, capture_from, allied);
    lemma_neighbour_count_le(luts, capture_to, allied);
    lemma_neighbour_count_le(luts, capture_to, enemy);
    lemma_neighbour_count_le(luts, quiet_from, allied);
    lemma_neighbour_count_le(luts, quiet_to, allied);
    assert(0 <= luts.centrality_lut@[capture_to] <= 3 && 0 <= luts.centrality_lut@[capture_from] <= 3) by {
        assert(luts.centrality_lut@[capture_to] == centrality(capture_to));
        assert(luts.centrality_lut@[capture_from] == centrality(capture_from));
    }
    assert(0 <= luts.centrality_lut@[quiet_to] <= 3 && 0 <= luts.centrality_lut@[quiet_from] <= 3) by {
        assert(luts.centrality_lut@[quiet_to] == centrality(quiet_to));
        assert(luts.centrality_lut@[quiet_from] == centrality(quiet_from));
    }
}

/// Scores a move for move ordering; moves with lower values are searched first.
pub fn evaluate_move(m: &Move, allied_pieces: Bitboard, enemy_pieces: Bitboard, luts: &EngineLUTs) -> (r: i32)
    requires
        luts.wf(),
    ensures
        r == move_order_key(luts, m.from_sq() as int, m.to_sq() as int, allied_pieces.0, enemy_pieces.0),
{
    let from_sq = m.from_square() as usize;
    let to_sq = m.to_square() as usize;
    let to_mask = Bitboard::from_square(m.to_square());
    let is_capture = !Bitboard(to_mask.0 & enemy_pieces.0).is_empty();
    proof {
        if bit_set(enemy_pieces.0, to_sq as u64) {
            assert(bit_set(to_mask.0 & enemy_pieces.0, to_sq as u64));
        } else {
            assert forall|i: u64| i < 64 implies !bit_set(to_mask.0 & enemy_pieces.0, i) by {}
            crate::bitboard::lemma_no_bits_zero(to_mask.0 & enemy_pieces.0);
        }
        lemma_popcount_le(luts.moore_neighborhood_lut@[from_sq as int].0 & allied_pieces.0);
        lemma_popcount_le(luts.moore_neighborhood_lut@[to_sq as int].0 & allied_pieces.0);
        lemma_popcount_le(luts.moore_neighborhood_lut@[to_sq as int].0 & enemy_pieces.0);
    }
    let mut move_score: i32 = 0;
    let from_neighborhood = luts.moore_neighborhood_lut[from_sq];
    let to_neighborhood = luts.moore_neighborhood_lut[to_sq];
    let from_allied_density = Bitboard(from_neighborhood.0 & allied_pieces.0).count_ones() as i32;
    let to_allied_density = Bitboard(to_neighborhood.0 & allied_pieces.0).count_ones() as i32;
    let to_enemy_density = Bitboard(to_neighborhood.0 & enemy_pieces.0).count_ones() as i32;
    move_score = move_score + (to_allied_density - from_allied_density) * 50;
    if is_capture {
        move_score = move_score + 5000;
        move_score = move_score + to_enemy_density * 100;
    }
    proof {
        assert(luts.centrality_lut@[to_sq as int] == centrality(to_sq as int));
        assert(luts.centrality_lut@[from_sq as int] == centrality(from_sq as int));
        assert(centrality(to_sq as int) <= 3 && centrality(from_sq as int) <= 3);
    }
    move_score = move_score + luts.centrality_lut[to_sq] as i32 - luts.centrality_lut[from_sq] as i32;
    -move_score
}

/// One saturating increment of the three-plane counter, bit by bit: the planes of a counter at
/// `density_value(c)`, after the carry chain with the sticky overflow, hold the counter at `c`
/// plus one where `m` is set.
proof fn lemma_counter_step(c: nat, m: bool)
    ensures
        ({
            let d0 = density_value(c);
            let o0 = d0 % 2 == 1;
            let o1 = (d0 / 2) % 2 == 1;
            let o2 = d0 >= 4;
            let carry_1 = o0 && m;
            let carry_2 = o1 && carry_1;
            let overflow = o2 && carry_2;
            let d = density_value(c + if m { 1nat } else { 0nat });
            &&& ((o0 != m) || overflow) == (d % 2 == 1)
            &&& ((o1 != carry_1) || overflow) == ((d / 2) % 2 == 1)
            &&& (o2 || carry_2) == (d >= 4)
        }),
{
}

/// The planes and union hold the counters of the pieces of `base` not in `left`.
pub open spec fn planes_count(
    density: VerticalDensityMap,
    union_map: StructuralMoveMap,
    base: u64,
    left: u64,
    targets: u64,
    sq: u64,
) -> bool {
    let total = control_count(base, base, targets, sq);
    let rest = control_count(left, base, targets, sq);
    let c = (total - rest) as nat;
    let d = density_value(c);
    &&& rest <= total
    &&& bit_set(density.layer_0.0, sq) == (d % 2 == 1)
    &&& bit_set(density.layer_1.0, sq) == ((d / 2) % 2 == 1)
    &&& bit_set(density.layer_2.0, sq) == (d >= 4)
    &&& bit_set(union_map.collective_moves.0, sq) == (c > 0)
}

/// Runs over the pieces of `movers` and gathers their control counters and control union,
/// each piece's control map taken with `movers` as its side and `targets` as the other side.
pub fn generate_intermediate_assets(movers: Bitboard, targets: Bitboard) -> (batch: IntermediateBatch)
    ensures
        batch_describes(batch, movers.0, targets.0),
{
    let mut union_map = StructuralMoveMap { collective_moves: Bitboard(0) };
    let mut density = VerticalDensityMap {
        layer_0: Bitboard(0),
        layer_1: Bitboard(0),
        layer_2: Bitboard(0),
    };
    let base_movers = movers;
    let mut movers = movers;
    while !movers.is_empty()
        invariant
            forall|sq: u64|
                sq < 64 ==> #[trigger] planes_count(density, union_map, base_movers.0, movers.0, targets.0, sq),
        decreases movers.0,
    {
        assert(movers.0 != 0);
        let ghost cur = movers.0;
        let ghost old_density = density;
        let ghost old_union = union_map;
        let piece_idx = movers.pop_lsb();
        let piece_moves = generate_piece_moves(piece_idx, base_movers, targets, true);
        union_map.collective_moves = Bitboard(union_map.collective_moves.0 | piece_moves.0);
        let carry_1 = density.layer_0.0 & piece_moves.0;
        density.layer_0 = Bitboard(density.layer_0.0 ^ piece_moves.0);
        let carry_2 = density.layer_1.0 & carry_1;
        density.layer_1 = Bitboard(density.layer_1.0 ^ carry_1);
        // A square already at 7 that gains an attacker stays at 7.
        let overflow = density.layer_2.0 & carry_2;
        density.layer_2 = Bitboard(density.layer_2.0 | carry_2);
        density.layer_0 = Bitboard(density.layer_0.0 | overflow);
        density.layer_1 = Bitboard(density.layer_1.0 | overflow);
        proof {
            assert forall|sq: u64| sq < 64 implies #[trigger] planes_count(density, union_map, base_movers.0, movers.0, targets.0, sq) by {
                let total = control_count(base_movers.0, base_movers.0, targets.0, sq);
                let before = control_count(cur, base_movers.0, targets.0, sq);
                let left = control_count(movers.0, base_movers.0, targets.0, sq);
                let a: nat = if bit_set(piece_moves.0, sq) { 1 } else { 0 };
                assert(before == a + left);
                let c0 = (total - before) as nat;
                let d0 = density_value(c0);
                assert(planes_count(old_density, old_union, base_movers.0, cur, targets.0, sq));
                assert(bit_set(old_density.layer_0.0, sq) == (d0 % 2 == 1));
                assert(bit_set(old_density.layer_1.0, sq) == ((d0 / 2) % 2 == 1));
                assert(bit_set(old_density.layer_2.0, sq) == (d0 >= 4));
                assert(bit_set(old_union.collective_moves.0, sq) == (c0 > 0));
                let c = (total - left) as nat;
                let d = density_value(c);
                assert(c == c0 + a);
                assert(left <= total);
                lemma_counter_step(c0, bit_set(piece_moves.0, sq));
                assert(bit_set(density.layer_0.0, sq) == (d % 2 == 1));
                assert(bit_set(density.layer_1.0, sq) == ((d / 2) % 2 == 1));
                assert(bit_set(density.layer_2.0, sq) == (d >= 4));
                assert(bit_set(union_map.collective_moves.0, sq) == (c > 0));
            }
        }
    }
    let batch = IntermediateBatch { union_map, density };
    proof {
        assert forall|sq: u64| sq < 64 implies #[trigger] batch_square(batch, base_movers.0, targets.0, sq) by {
            assert(planes_count(density, union_map, base_movers.0, movers.0, targets.0, sq));
        }
    }
    batch
}

/// The sovereignty index of a square from the counter planes of both sides, as read from the
/// bit planes: sets of the six classes are disjoint and cover the board.
pub open spec fn plane_value(l0: bool, l1: bool, l2: bool) -> nat {
    (if l2 { 4nat } else { 0nat }) + (if l1 { 2nat } else { 0nat }) + (if l0 { 1nat } else { 0nat })
}

/// The counter value that a batch's three planes hold on `sq`.
pub open spec fn batch_density(b: IntermediateBatch, sq: u64) -> nat {
    plane_value(
        bit_set(b.density.layer_0.0, sq),
        bit_set(b.density.layer_1.0, sq),
        bit_set(b.density.layer_2.0, sq),
    )
}

/// Whether `sq` falls in the feature cell (t, s, g, p) when its sovereignty is read from the
/// counter planes of the two batches.
pub open spec fn batch_cell(
    a: IntermediateBatch,
    b: IntermediateBatch,
    allies: u64,
    enemies: u64,
    t: int,
    s: int,
    g: int,
    p: int,
    sq: u64,
) -> bool {
    &&& in_tile(t, allies, enemies, sq)
    &&& sovereignty_of(batch_density(a, sq), batch_density(b, sq)) == s
    &&& bit_set(region_word(g), sq)
    &&& bit_set(parity_word(p), sq)
}

/// The number of squares in a feature cell, sovereignty read from the two batches.
pub open spec fn batch_count(
    a: IntermediateBatch,
    b: IntermediateBatch,
    allies: u64,
    enemies: u64,
    t: int,
    s: int,
    g: int,
    p: int,
) -> nat {
    popcount(word_of(|sq: u64| batch_cell(a, b, allies, enemies, t, s, g, p, sq), 64))
}

/// Batches that describe the position read the same cells as the position itself.
proof fn lemma_batch_count_matches(
    a: IntermediateBatch,
    b: IntermediateBatch,
    allies: u64,
    enemies: u64,
    t: int,
    s: int,
    g: int,
    p: int,
)
    requires
        batch_describes(a, allies, enemies),
        batch_describes(b, enemies, allies),
    ensures
        batch_count(a, b, allies, enemies, t, s, g, p) == feature_count(allies, enemies, t, s, g, p),
{
    let pa = |sq: u64| batch_cell(a, b, allies, enemies, t, s, g, p, sq);
    let pf = |sq: u64| feature_cell(allies, enemies, t, s, g, p, sq);
    lemma_word_of(pa, 64);
    lemma_word_of(pf, 64);
    assert forall|sq: u64| sq < 64 implies bit_set(word_of(pa, 64), sq) == bit_set(word_of(pf, 64), sq) by {
        assert(batch_square(a, allies, enemies, sq));
        assert(batch_square(b, enemies, allies, sq));
        lemma_planes_hold_density(control_count(allies, allies, enemies, sq));
        lemma_planes_hold_density(control_count(enemies, enemies, allies, sq));
    }
    lemma_bits_ext(word_of(pa, 64), word_of(pf, 64));
}

proof fn lemma_planes_hold_density(c: nat)
    ensures
        ({
            let d = density_value(c);
            plane_value(d % 2 == 1, (d / 2) % 2 == 1, d >= 4) == d
        }),
{
}

/// The six sovereignty masks computed from two batches by bitwise magnitude comparison.
fn sovereignty_masks(ally_batch: &IntermediateBatch, enemy_batch: &IntermediateBatch) -> (masks: [u64; 6])
    ensures
        forall|k: int, sq: u64|
            0 <= k < 6 && sq < 64 ==> #[trigger] bit_set(masks@[k], sq) == (sovereignty_of(
                batch_density(*ally_batch, sq),
                batch_density(*enemy_batch, sq),
            ) == k),
{
    let a0 = ally_batch.density.layer_0.0;
    let a1 = ally_batch.density.layer_1.0;
    let a2 = ally_batch.density.layer_2.0;
    let b0 = enemy_batch.density.layer_0.0;
    let b1 = enemy_batch.density.layer_1.0;
    let b2 = enemy_batch.density.layer_2.0;
    let eq2 = !(a2 ^ b2);
    let eq1 = !(a1 ^ b1);
    let eq0 = !(a0 ^ b0);
    let absolute_equal_depth = eq2 & eq1 & eq0;
    let any_ally_control = a0 | a1 | a2;
    let any_enemy_control = b0 | b1 | b2;
    let ally_greater_mask = (a2 & !b2) | (eq2 & (a1 & !b1)) | (eq2 & eq1 & (a0 & !b0));
    let enemy_greater_mask = (b2 & !a2) | (eq2 & (b1 & !a1)) | (eq2 & eq1 & (b0 & !a0));
    let ally_uncontested = ally_greater_mask & !any_enemy_control;
    let ally_dominates = ally_greater_mask & any_enemy_control;
    let enemy_uncontested = enemy_greater_mask & !any_ally_control;
    let enemy_dominates = enemy_greater_mask & any_ally_control;
    let tied_conflict = absolute_equal_depth & any_ally_control;
    let no_conflict = !(any_ally_control | any_enemy_control);
    let masks = [
        ally_uncontested,
        ally_dominates,
        no_conflict,
        tied_conflict,
        enemy_dominates,
        enemy_uncontested,
    ];
    masks
}

/// The number of squares in one feature cell, from the precomputed sovereignty and tile masks.
fn feature_cell_count(
    sovereignty: &[u64; 6],
    tile_masks: &[u64; 3],
    allies: u64,
    enemies: u64,
    luts: &EngineLUTs,
    t_idx: usize,
    s_idx: usize,
    g_idx: usize,
    p_idx: usize,
    Ghost(a): Ghost<IntermediateBatch>,
    Ghost(b): Ghost<IntermediateBatch>,
) -> (count: u8)
    requires
        luts.wf(),
        t_idx < 3,
        s_idx < 6,
        g_idx < 3,
        p_idx < 2,
        forall|s: int, sq: u64| 0 <= s < 6 && sq < 64 ==> #[trigger] bit_set(sovereignty@[s], sq)
            == (sovereignty_of(batch_density(a, sq), batch_density(b, sq)) == s),
        forall|t: int, sq: u64| 0 <= t < 3 && sq < 64 ==> #[trigger] bit_set(tile_masks@[t], sq)
            == in_tile(t, allies, enemies, sq),
    ensures
        count == batch_count(a, b, allies, enemies, t_idx as int, s_idx as int, g_idx as int, p_idx as int),
{
    let region = if g_idx == 0 {
        RegionType::Corner2x2
    } else if g_idx == 1 {
        RegionType::Edge4x2
    } else {
        RegionType::Center4x4
    };
    let parity = if p_idx == 0 {
        ParityType::Even
    } else {
        ParityType::Odd
    };
    let r_mask = luts.regions.get(region);
    let p_mask = luts.parities.get(parity);
    let spatial_filter = r_mask.0 & p_mask.0;
    let tile_filter = spatial_filter & tile_masks[t_idx];
    let combined_filter = tile_filter & sovereignty[s_idx];
    let count = Bitboard(combined_filter).count_ones();
    proof {
        assert(r_mask.0 == region_word(g_idx as int));
        assert(p_mask.0 == parity_word(p_idx as int));
        let pred = |sq: u64| batch_cell(a, b, allies, enemies, t_idx as int, s_idx as int, g_idx as int, p_idx as int, sq);
        let w = word_of(pred, 64);
        lemma_word_of(pred, 64);
        assert forall|sq: u64| sq < 64 implies bit_set(combined_filter, sq) == bit_set(w, sq) by {
            assert(bit_set(sovereignty@[s_idx as int], sq) == (sovereignty_of(batch_density(a, sq), batch_density(b, sq)) == s_idx));
            assert(bit_set(tile_masks@[t_idx as int], sq) == in_tile(t_idx as int, allies, enemies, sq));
        }
        lemma_bits_ext(combined_filter, w);
        lemma_popcount_le(combined_filter);
    }
    count as u8
}

/// Counts, for every feature cell, the squares that fall in it: its tile type from the pieces,
/// its sovereignty from comparing the counter planes of the two batches, its region and its
/// colour. Batches gathered from these very pieces give the feature counts of the position.
#[verifier::rlimit(40)]
pub fn reduce_assets_to_matrix(
    ally_batch: &IntermediateBatch,
    enemy_batch: &IntermediateBatch,
    allied_pieces: Bitboard,
    enemy_pieces: Bitboard,
    luts: &EngineLUTs,
) -> (matrix: FeatureMatrix)
    requires
        luts.wf(),
    ensures
        forall|t: int, s: int, g: int, p: int|
            0 <= t < 3 && 0 <= s < 6 && 0 <= g < 3 && 0 <= p < 2 ==> #[trigger] matrix.cell(t, s, g, p)
                == batch_count(*ally_batch, *enemy_batch, allied_pieces.0, enemy_pieces.0, t, s, g, p),
        batch_describes(*ally_batch, allied_pieces.0, enemy_pieces.0) && batch_describes(
            *enemy_batch,
            enemy_pieces.0,
            allied_pieces.0,
        ) ==> matrix_matches(matrix, allied_pieces.0, enemy_pieces.0),
{
    let mut matrix = FeatureMatrix::new();
    let sovereignty = sovereignty_masks(ally_batch, enemy_batch);
    let allies = allied_pieces.0;
    let enemies = enemy_pieces.0;
    let tile_masks: [u64; 3] = [!(allies | enemies), allies, enemies];
    let ghost a = *ally_batch;
    let ghost b = *enemy_batch;
    proof {
        assert forall|t: int, sq: u64| 0 <= t < 3 && sq < 64 implies #[trigger] bit_set(tile_masks@[t], sq)
            == in_tile(t, allies, enemies, sq) by {}
    }
    let mut t_idx: usize = 0;
    while t_idx < 3
        invariant
            t_idx <= 3,
            luts.wf(),
            allies == allied_pieces.0,
            enemies == enemy_pieces.0,
            forall|s: int, sq: u64| 0 <= s < 6 && sq < 64 ==> #[trigger] bit_set(sovereignty@[s], sq)
                == (sovereignty_of(batch_density(a, sq), batch_density(b, sq)) == s),
            forall|t: int, sq: u64| 0 <= t < 3 && sq < 64 ==> #[trigger] bit_set(tile_masks@[t], sq)
                == in_tile(t, allies, enemies, sq),
            forall|t: int, s: int, g: int, p: int|
                0 <= t < t_idx && 0 <= s < 6 && 0 <= g < 3 && 0 <= p < 2
                    ==> #[trigger] matrix.cell(t, s, g, p) == batch_count(a, b, allies, enemies, t, s, g, p),
        decreases 3 - t_idx,
    {
        let mut s_idx: usize = 0;
        while s_idx < 6
            invariant
                t_idx < 3,
                s_idx <= 6,
                luts.wf(),
                forall|s: int, sq: u64| 0 <= s < 6 && sq < 64 ==> #[trigger] bit_set(sovereignty@[s], sq)
                    == (sovereignty_of(batch_density(a, sq), batch_density(b, sq)) == s),
                forall|t: int, sq: u64| 0 <= t < 3 && sq < 64 ==> #[trigger] bit_set(tile_masks@[t], sq)
                    == in_tile(t, allies, enemies, sq),
                forall|t: int, s: int, g: int, p: int|
                    0 <= t < 3 && 0 <= s < 6 && 0 <= g < 3 && 0 <= p < 2 && (t < t_idx || (t == t_idx && s < s_idx))
                        ==> #[trigger] matrix.cell(t, s, g, p) == batch_count(a, b, allies, enemies, t, s, g, p),
            decreases 6 - s_idx,
        {
            let c00 = feature_cell_count(&sovereignty, &tile_masks, allies, enemies, luts, t_idx, s_idx, 0, 0, Ghost(a), Ghost(b));
            let c01 = feature_cell_count(&sovereignty, &tile_masks, allies, enemies, luts, t_idx, s_idx, 0, 1, Ghost(a), Ghost(b));
            let c10 = feature_cell_count(&sovereignty, &tile_masks, allies, enemies, luts, t_idx, s_idx, 1, 0, Ghost(a), Ghost(b));
            let c11 = feature_cell_count(&sovereignty, &tile_masks, allies, enemies, luts, t_idx, s_idx, 1, 1, Ghost(a), Ghost(b));
            let c20 = feature_cell_count(&sovereignty, &tile_masks, allies, enemies, luts, t_idx, s_idx, 2, 0, Ghost(a), Ghost(b));
            let c21 = feature_cell_count(&sovereignty, &tile_masks, allies, enemies, luts, t_idx, s_idx, 2, 1, Ghost(a), Ghost(b));
            let row: [[u8; 2]; 3] = [[c00, c01], [c10, c11], [c20, c21]];
            let ghost before = matrix;
            matrix.values[t_idx][s_idx] = row;
            proof {
                assert(row@[0]@[0] == c00 && row@[0]@[1] == c01 && row@[1]@[0] == c10);
                assert(row@[1]@[1] == c11 && row@[2]@[0] == c20 && row@[2]@[1] == c21);
                assert forall|t: int, s: int, g: int, p: int|
                    0 <= t < 3 && 0 <= s < 6 && 0 <= g < 3 && 0 <= p < 2 && (t < t_idx || (t == t_idx && s < s_idx + 1))
                        implies #[trigger] matrix.cell(t, s, g, p) == batch_count(a, b, allies, enemies, t, s, g, p) by {
                    if t == t_idx && s == s_idx {
                        assert(matrix.values@[t]@[s] == row);
                    } else {
                        assert(matrix.values@[t]@[s] == before.values@[t]@[s]);
                        assert(before.cell(t, s, g, p) == batch_count(a, b, allies, enemies, t, s, g, p));
                    }
                }
            }
            s_idx = s_idx + 1;
        }
        t_idx = t_idx + 1;
    }
    proof {
        if batch_describes(a, allies, enemies) && batch_describes(b, enemies, allies) {
            assert forall|t: int, s: int, g: int, p: int|
                0 <= t < 3 && 0 <= s < 6 && 0 <= g < 3 && 0 <= p < 2 implies #[trigger] matrix.cell(t, s, g, p)
                    == feature_count(allies, enemies, t, s, g, p) by {
                lemma_batch_count_matches(a, b, allies, enemies, t, s, g, p);
            }
        }
    }
    matrix
}

/// The feature counts of the position where `allied_pieces` are to move: for every square,
/// its tile type, who controls it (comparing the control counters of both sides), its region
/// and its colour.
pub fn evaluate_position(allied_pieces: Bitboard, enemy_pieces: Bitboard, luts: &EngineLUTs) -> (r: FeatureMatrix)
    requires
        luts.wf(),
    ensures
        matrix_matches(r, allied_pieces.0, enemy_pieces.0),
{
    let ally_batch = generate_intermediate_assets(allied_pieces, enemy_pieces);
    let enemy_batch = generate_intermediate_assets(enemy_pieces, allied_pieces);
    reduce_assets_to_matrix(&ally_batch, &enemy_batch, allied_pieces, enemy_pieces, luts)
}

/// The tile class of a square seen from the other side: allied and enemy trade places.
pub open spec fn mirror_tile(t: int) -> int {
    if t == 1 {
        2
    } else if t == 2 {
        1
    } else {
        t
    }
}

/// The sovereignty class of a square seen from the other side: sole control and contested
/// lead trade places with their opposites, a neutral or balanced square stays as it is.
pub open spec fn mirror_sovereignty(s: int) -> int {
    if s == 0 {
        5
    } else if s == 1 {
        4
    } else if s == 4 {
        1
    } else if s == 5 {
        0
    } else {
        s
    }
}

/// Seen from the other side, a position has the same feature counts with the tile and
/// sovereignty classes mirrored.
pub proof fn lemma_mirror_features(allies: u64, enemies: u64, t: int, s: int, g: int, p: int)
    requires
        0 <= t < 3,
    ensures
        feature_count(enemies, allies, mirror_tile(t), mirror_sovereignty(s), g, p) == feature_count(
            allies,
            enemies,
            t,
            s,
            g,
            p,
        ),
{
    let f1 = |sq: u64| feature_cell(enemies, allies, mirror_tile(t), mirror_sovereignty(s), g, p, sq);
    let f2 = |sq: u64| feature_cell(allies, enemies, t, s, g, p, sq);
    assert(f1 =~= f2) by {
        assert forall|sq: u64| #[trigger] f1(sq) == f2(sq) by {
            let da = side_density(allies, enemies, sq);
            let db = side_density(enemies, allies, sq);
            assert(sovereignty_of(db, da) == mirror_sovereignty(sovereignty_of(da, db)));
            assert(sovereignty_of(db, da) == mirror_sovereignty(s) <==> sovereignty_of(da, db) == s);
            assert(in_tile(mirror_tile(t), enemies, allies, sq) == in_tile(t, allies, enemies, sq));
        }
    }
}

/// The sum of the matrix cells of the tile class `t`, over the first `j` of them in
/// sovereignty, region, parity order.
pub open spec fn tile_sum(m: FeatureMatrix, t: int, j: int) -> int
    decreases j,
{
    if j <= 0 {
        0
    } else {
        tile_sum(m, t, j - 1) + m.cell(t, (j - 1) / 6, ((j - 1) / 2) % 3, (j - 1) % 2)
    }
}

/// A square of one of the first `j` cells of a tile class lies in their union.
proof fn lemma_tile_cells_holds(allies: u64, enemies: u64, t: int, j: int, i: int, sq: u64)
    requires
        0 <= i < j <= 36,
        sq < 64,
        feature_cell(allies, enemies, t, i / 6, (i / 2) % 3, i % 2, sq),
    ensures
        bit_set(tile_cells_word(allies, enemies, t, j), sq),
    decreases j,
{
    broadcast use group_bits;

    let k = j - 1;
    lemma_word_of(|q: u64| feature_cell(allies, enemies, t, k / 6, (k / 2) % 3, k % 2, q), 64);
    if i < k {
        lemma_tile_cells_holds(allies, enemies, t, k, i, sq);
    }
}

/// Every square of a tile class lies in one of its 36 cells: the sovereignty classes, the
/// regions and the parities each cover the board.
proof fn lemma_square_has_cell(allies: u64, enemies: u64, t: int, sq: u64)
    requires
        sq < 64,
        in_tile(t, allies, enemies, sq),
    ensures
        bit_set(tile_cells_word(allies, enemies, t, 36), sq),
{
    broadcast use group_bits;

    crate::luts::lemma_regions_partition();
    crate::luts::lemma_parities_partition(sq);
    let s = sovereignty_of(side_density(allies, enemies, sq), side_density(enemies, allies, sq));
    let g: int = if bit_set(region_word(0), sq) {
        0
    } else if bit_set(region_word(1), sq) {
        1
    } else {
        2
    };
    let p: int = if bit_set(parity_word(0), sq) {
        0
    } else {
        1
    };
    assert(bit_set(0xFFFF_FFFF_FFFF_FFFFu64, sq));
    assert(bit_set(region_word(g), sq));
    assert(bit_set(parity_word(p), sq));
    let i = 6 * s + 2 * g + p;
    assert(0 <= s < 6);
    assert(i / 6 == s && (i / 2) % 3 == g && i % 2 == p && 0 <= i < 36) by (nonlinear_arith)
        requires
            i == 6 * s + 2 * g + p,
            0 <= s < 6,
            0 <= g < 3,
            0 <= p < 2,
    ;
    lemma_tile_cells_holds(allies, enemies, t, 36, i, sq);
}

/// The 36 cells of a tile class together hold exactly the squares of that class.
proof fn lemma_tile_cells_word(allies: u64, enemies: u64, t: int, w: u64)
    requires
        forall|sq: u64| sq < 64 ==> bit_set(w, sq) == in_tile(t, allies, enemies, sq),
    ensures
        tile_cells_word(allies, enemies, t, 36) == w,
{
    assert forall|sq: u64| sq < 64 implies bit_set(tile_cells_word(allies, enemies, t, 36), sq) == bit_set(w, sq) by {
        lemma_tile_cells_bits(allies, enemies, t, 36, sq);
        if in_tile(t, allies, enemies, sq) {
            lemma_square_has_cell(allies, enemies, t, sq);
        }
    }
    crate::bitboard::lemma_bits_ext(tile_cells_word(allies, enemies, t, 36), w);
}

/// The matrix sums of a tile class are the counts of its cells.
proof fn lemma_tile_sum_counts(m: FeatureMatrix, allies: u64, enemies: u64, t: int, j: int)
    requires
        matrix_matches(m, allies, enemies),
        0 <= t < 3,
        0 <= j <= 36,
    ensures
        tile_sum(m, t, j) == tile_cells_count(allies, enemies, t, j),
    decreases j,
{
    if j > 0 {
        lemma_tile_sum_counts(m, allies, enemies, t, j - 1);
        let i = j - 1;
        assert(0 <= i / 6 < 6 && 0 <= (i / 2) % 3 < 3 && 0 <= i % 2 < 2) by (nonlinear_arith)
            requires
                0 <= i < 36,
        ;
        assert(m.cell(t, i / 6, (i / 2) % 3, i % 2) == feature_count(allies, enemies, t, i / 6, (i / 2) % 3, i % 2));
    }
}

/// The full board counts 64 squares.
proof fn lemma_count_full(n: nat)
    requires
        n <= 64,
    ensures
        count_below(0xFFFF_FFFF_FFFF_FFFFu64, n) == n,
    decreases n,
{
    broadcast use group_bits;

    if n > 0 {
        lemma_count_full((n - 1) as nat);
        assert(bit_set(0xFFFF_FFFF_FFFF_FFFFu64, (n - 1) as u64));
    }
}

/// The feature counts of a position sum, over the cells of the allied tile class, to the
/// number of allied pieces, and over those of the enemy tile class to the number of enemy
/// pieces; when no square holds both, all the cells together count the 64 squares of the
/// board.
pub proof fn lemma_tile_sums(m: FeatureMatrix, allies: u64, enemies: u64)
    requires
        matrix_matches(m, allies, enemies),
    ensures
        tile_sum(m, 1, 36) == popcount(allies),
        tile_sum(m, 2, 36) == popcount(enemies),
        allies & enemies == 0 ==> tile_sum(m, 0, 36) + tile_sum(m, 1, 36) + tile_sum(m, 2, 36) == 64,
{
    broadcast use group_bits;

    lemma_tile_sum_counts(m, allies, enemies, 0, 36);
    lemma_tile_sum_counts(m, allies, enemies, 1, 36);
    lemma_tile_sum_counts(m, allies, enemies, 2, 36);
    lemma_tile_cells_count(allies, enemies, 0, 36);
    lemma_tile_cells_count(allies, enemies, 1, 36);
    lemma_tile_cells_count(allies, enemies, 2, 36);
    lemma_tile_cells_word(allies, enemies, 1, allies);
    lemma_tile_cells_word(allies, enemies, 2, enemies);
    let empty = !(allies | enemies);
    lemma_tile_cells_word(allies, enemies, 0, empty);
    if allies & enemies == 0 {
        let both = allies | enemies;
        crate::bitboard::lemma_popcount_disjoint(allies, enemies);
        assert forall|i: u64| i < 64 implies !bit_set(both & empty, i) by {}
        crate::bitboard::lemma_no_bits_zero(both & empty);
        assert forall|i: u64| i < 64 implies bit_set(both | empty, i) == bit_set(0xFFFF_FFFF_FFFF_FFFFu64, i) by {}
        crate::bitboard::lemma_bits_ext(both | empty, 0xFFFF_FFFF_FFFF_FFFFu64);
        crate::bitboard::lemma_popcount_disjoint(both, empty);
        lemma_count_full(64);
    }
}

/// The squares of the first `j` feature cells of the region `g` and parity `p`, cells taken
/// in tile, sovereignty order.
pub open spec fn column_cells_word(allies: u64, enemies: u64, g: int, p: int, j: int) -> u64
    decreases j,
{
    if j <= 0 {
        0
    } else {
        column_cells_word(allies, enemies, g, p, j - 1) | feature_word(allies, enemies, (j - 1) / 6, (j - 1) % 6, g, p)
    }
}

/// The number of squares in the first `j` feature cells of the region `g` and parity `p`.
pub open spec fn column_cells_count(allies: u64, enemies: u64, g: int, p: int, j: int) -> int
    decreases j,
{
    if j <= 0 {
        0
    } else {
        column_cells_count(allies, enemies, g, p, j - 1) + feature_count(allies, enemies, (j - 1) / 6, (j - 1) % 6, g, p)
    }
}

/// The sum of the matrix cells of the region `g` and parity `p`, over the first `j` of them
/// in tile, sovereignty order.
pub open spec fn column_sum(m: FeatureMatrix, g: int, p: int, j: int) -> int
    decreases j,
{
    if j <= 0 {
        0
    } else {
        column_sum(m, g, p, j - 1) + m.cell((j - 1) / 6, (j - 1) % 6, g, p)
    }
}

/// A square in the union of the first `j` cells of a region and parity lies in one of them.
proof fn lemma_column_cells_bits(allies: u64, enemies: u64, g: int, p: int, j: int, sq: u64)
    requires
        0 <= j <= 18,
        sq < 64,
    ensures
        bit_set(column_cells_word(allies, enemies, g, p, j), sq) ==> exists|i: int|
            0 <= i < j && #[trigger] feature_cell(allies, enemies, i / 6, i % 6, g, p, sq),
    decreases j,
{
    broadcast use group_bits;

    if j > 0 {
        lemma_column_cells_bits(allies, enemies, g, p, j - 1, sq);
        let i = j - 1;
        lemma_word_of(|q: u64| feature_cell(allies, enemies, i / 6, i % 6, g, p, q), 64);
    }
}

/// A square of one of the first `j` cells of a region and parity lies in their union.
proof fn lemma_column_cells_holds(allies: u64, enemies: u64, g: int, p: int, j: int, i: int, sq: u64)
    requires
        0 <= i < j <= 18,
        sq < 64,
        feature_cell(allies, enemies, i / 6, i % 6, g, p, sq),
    ensures
        bit_set(column_cells_word(allies, enemies, g, p, j), sq),
    decreases j,
{
    broadcast use group_bits;

    let k = j - 1;
    lemma_word_of(|q: u64| feature_cell(allies, enemies, k / 6, k % 6, g, p, q), 64);
    if i < k {
        lemma_column_cells_holds(allies, enemies, g, p, k, i, sq);
    }
}

/// With no square holding both sides, a square lies in at most one cell of a region and
/// parity.
proof fn lemma_column_cell_unique(allies: u64, enemies: u64, g: int, p: int, i1: int, i2: int, sq: u64)
    requires
        allies & enemies == 0,
        0 <= i1 < 18,
        0 <= i2 < 18,
        sq < 64,
        feature_cell(allies, enemies, i1 / 6, i1 % 6, g, p, sq),
        feature_cell(allies, enemies, i2 / 6, i2 % 6, g, p, sq),
    ensures
        i1 == i2,
{
    broadcast use group_bits;

    assert(!bit_set(allies & enemies, sq));
    assert(i1 == 6 * (i1 / 6) + i1 % 6 && i2 == 6 * (i2 / 6) + i2 % 6) by (nonlinear_arith)
        requires
            0 <= i1 < 18,
            0 <= i2 < 18,
    ;
    assert(0 <= i1 / 6 < 3 && 0 <= i2 / 6 < 3);
}

/// The cells of a region and parity count the squares of their union.
proof fn lemma_column_cells_count(allies: u64, enemies: u64, g: int, p: int, j: int)
    requires
        allies & enemies == 0,
        0 <= j <= 18,
    ensures
        column_cells_count(allies, enemies, g, p, j) == popcount(column_cells_word(allies, enemies, g, p, j)),
    decreases j,
{
    broadcast use group_bits;

    if j > 0 {
        lemma_column_cells_count(allies, enemies, g, p, j - 1);
        let i = j - 1;
        let u = column_cells_word(allies, enemies, g, p, i);
        let w = feature_word(allies, enemies, i / 6, i % 6, g, p);
        lemma_word_of(|q: u64| feature_cell(allies, enemies, i / 6, i % 6, g, p, q), 64);
        assert forall|sq: u64| sq < 64 implies !bit_set(u & w, sq) by {
            lemma_column_cells_bits(allies, enemies, g, p, i, sq);
            if bit_set(u, sq) && bit_set(w, sq) {
                let i0 = choose|i0: int| 0 <= i0 < i && #[trigger] feature_cell(allies, enemies, i0 / 6, i0 % 6, g, p, sq);
                lemma_column_cell_unique(allies, enemies, g, p, i0, i, sq);
            }
        }
        crate::bitboard::lemma_no_bits_zero(u & w);
        crate::bitboard::lemma_popcount_disjoint(u, w);
        assert(column_cells_word(allies, enemies, g, p, j) == u | w);
    } else {
        crate::bitboard::lemma_no_bits_zero(0u64 & 0u64);
        crate::bitboard::lemma_no_bits_zero(0u64 | 0u64);
        crate::bitboard::lemma_popcount_disjoint(0u64, 0u64);
    }
}

/// The 18 cells of a region and parity together hold exactly its squares.
proof fn lemma_column_cells_word(allies: u64, enemies: u64, g: int, p: int)
    requires
        0 <= g < 3,
        0 <= p < 2,
    ensures
        column_cells_word(allies, enemies, g, p, 18) == region_word(g) & parity_word(p),
{
    broadcast use group_bits;

    let w = region_word(g) & parity_word(p);
    assert forall|sq: u64| sq < 64 implies bit_set(column_cells_word(allies, enemies, g, p, 18), sq) == bit_set(w, sq) by {
        lemma_column_cells_bits(allies, enemies, g, p, 18, sq);
        if bit_set(w, sq) {
            let s = sovereignty_of(side_density(allies, enemies, sq), side_density(enemies, allies, sq));
            let t: int = if bit_set(allies, sq) {
                1
            } else if bit_set(enemies, sq) {
                2
            } else {
                0
            };
            assert(in_tile(t, allies, enemies, sq));
            let i = 6 * t + s;
            assert(i / 6 == t && i % 6 == s && 0 <= i < 18) by (nonlinear_arith)
                requires
                    i == 6 * t + s,
                    0 <= s < 6,
                    0 <= t < 3,
            ;
            lemma_column_cells_holds(allies, enemies, g, p, 18, i, sq);
        }
    }
    crate::bitboard::lemma_bits_ext(column_cells_word(allies, enemies, g, p, 18), w);
}

/// The matrix sums of a region and parity are the counts of its cells.
proof fn lemma_column_sum_counts(m: FeatureMatrix, allies: u64, enemies: u64, g: int, p: int, j: int)
    requires
        matrix_matches(m, allies, enemies),
        0 <= g < 3,
        0 <= p < 2,
        0 <= j <= 18,
    ensures
        column_sum(m, g, p, j) == column_cells_count(allies, enemies, g, p, j),
    decreases j,
{
    if j > 0 {
        lemma_column_sum_counts(m, allies, enemies, g, p, j - 1);
        let i = j - 1;
        assert(0 <= i / 6 < 3 && 0 <= i % 6 < 6) by (nonlinear_arith)
            requires
                0 <= i < 18,
        ;
        assert(m.cell(i / 6, i % 6, g, p) == feature_count(allies, enemies, i / 6, i % 6, g, p));
    }
}

/// When no square holds both sides, the feature counts of a position sum, over the tile and
/// sovereignty classes of a region and parity, to the number of squares of that region and
/// parity.
pub proof fn lemma_column_sums(m: FeatureMatrix, allies: u64, enemies: u64, g: int, p: int)
    requires
        matrix_matches(m, allies, enemies),
        allies & enemies == 0,
        0 <= g < 3,
        0 <= p < 2,
    ensures
        column_sum(m, g, p, 18) == popcount(region_word(g) & parity_word(p)),
{
    lemma_column_sum_counts(m, allies, enemies, g, p, 18);
    lemma_column_cells_count(allies, enemies, g, p, 18);
    lemma_column_cells_word(allies, enemies, g, p);
}

} // verus!
