use vstd::prelude::*;
use crate::bitboard::{group_bits, bit_set, Bitboard, lemma_bits_ext};
use crate::movegen::{on_board, sq, file_of, rank_of};

verus! {

broadcast use group_bits;

// ============================================================================
// SPECIFICATIONS OF THE TABLES
// ============================================================================

/// Whether bit `b` of the neighbourhood key is set (that neighbour is occupied or off the board).
/// Key bits, in the frame where the swinging piece sits north of its pivot: 0 = north-east,
/// 1 = east, 2 = south-east, 3 = south, 4 = south-west, 5 = west, 6 = north-west.
pub open spec fn key_bit(key: u8, b: u8) -> bool {
    (key >> b) & 1u8 == 1u8
}

/// Swinging clockwise from north reaches east.
pub open spec fn arrives_east(key: u8) -> bool {
    !key_bit(key, 0) || (!key_bit(key, 6) && !key_bit(key, 5) && !key_bit(key, 4) && !key_bit(key, 3)
        && !key_bit(key, 2))
}

/// Swinging either way from north reaches south.
pub open spec fn arrives_south(key: u8) -> bool {
    (!key_bit(key, 0) && !key_bit(key, 1) && !key_bit(key, 2)) || (!key_bit(key, 6) && !key_bit(
        key,
        5,
    ) && !key_bit(key, 4))
}

/// Swinging counter-clockwise from north reaches west.
pub open spec fn arrives_west(key: u8) -> bool {
    (!key_bit(key, 0) && !key_bit(key, 1) && !key_bit(key, 2) && !key_bit(key, 3) && !key_bit(key, 4))
        || !key_bit(key, 6)
}

/// The arrival word of a neighbourhood key: bit 1 east, bit 2 south, bit 3 west.
pub open spec fn arrival_word(key: u8) -> u8 {
    ((if arrives_east(key) {
        2u8
    } else {
        0u8
    }) + (if arrives_south(key) {
        4u8
    } else {
        0u8
    }) + (if arrives_west(key) {
        8u8
    } else {
        0u8
    })) as u8
}

/// Square of the local template origin used by the relative move masks.
pub const LOCAL_ORIGIN_IDX: u64 = 28;

/// The relative move mask of a 4-bit cardinal selector (bit 0 north, 1 east, 2 south, 3 west):
/// the matching neighbours of the template origin.
pub open spec fn relative_mask_has(mask: u64, t: u64) -> bool {
    ||| bit_set(mask, 0) && t == LOCAL_ORIGIN_IDX + 8
    ||| bit_set(mask, 1) && t == LOCAL_ORIGIN_IDX + 1
    ||| bit_set(mask, 2) && t == LOCAL_ORIGIN_IDX - 8
    ||| bit_set(mask, 3) && t == LOCAL_ORIGIN_IDX - 1
}

/// Steps from `s` to `t` along the file direction `df` (the file distance signed by `df`).
pub open spec fn steps_f(s: int, t: int, df: int) -> int {
    if df > 0 {
        file_of(t) - file_of(s)
    } else {
        file_of(s) - file_of(t)
    }
}

/// Steps from `s` to `t` along the rank direction `dr`.
pub open spec fn steps_r(s: int, t: int, dr: int) -> int {
    if dr > 0 {
        rank_of(t) - rank_of(s)
    } else {
        rank_of(s) - rank_of(t)
    }
}

/// `t` lies on the diagonal ray leaving `s` in direction (df, dr), not counting `s`.
pub open spec fn on_ray(s: int, t: int, df: int, dr: int) -> bool {
    0 <= t < 64 && steps_f(s, t, df) == steps_r(s, t, dr) && steps_f(s, t, df) > 0
}

/// `t` is one of the up to eight squares around `s`.
pub open spec fn king_adjacent(s: int, t: int) -> bool {
    &&& 0 <= t < 64
    &&& t != s
    &&& -1 <= file_of(t) - file_of(s) <= 1
    &&& -1 <= rank_of(t) - rank_of(s) <= 1
}

/// The border class of a square: 0 interior, 1..4 bottom/top/left/right edge, 5..8 the
/// bottom-left, bottom-right, top-left and top-right corners.
pub open spec fn topology_index(s: int) -> u8 {
    let rank = rank_of(s);
    let file = file_of(s);
    let is_bottom = rank == 0;
    let is_top = rank == 7;
    let is_left = file == 0;
    let is_right = file == 7;
    if !is_bottom && !is_top && !is_left && !is_right {
        0
    } else if is_bottom && !is_left && !is_right {
        1
    } else if is_top && !is_left && !is_right {
        2
    } else if is_left && !is_bottom && !is_top {
        3
    } else if is_right && !is_bottom && !is_top {
        4
    } else if is_bottom && is_left {
        5
    } else if is_bottom && is_right {
        6
    } else if is_top && is_left {
        7
    } else {
        8
    }
}

/// Distance of a square from the nearest border (0 on the border, 3 on the four middle
/// squares).
pub open spec fn centrality(s: int) -> int {
    let f = file_of(s);
    let r = rank_of(s);
    let df = if f < 7 - f {
        f
    } else {
        7 - f
    };
    let dr = if r < 7 - r {
        r
    } else {
        7 - r
    };
    if df < dr {
        df
    } else {
        dr
    }
}

/// File step of neighbour direction `d` (0 north, then clockwise: 1 north-east, 2 east,
/// 3 south-east, 4 south, 5 south-west, 6 west, 7 north-west).
pub open spec fn compass_f(d: int) -> int {
    if d == 1 || d == 2 || d == 3 {
        1
    } else if d == 5 || d == 6 || d == 7 {
        -1
    } else {
        0
    }
}

/// Rank step of neighbour direction `d`.
pub open spec fn compass_r(d: int) -> int {
    if d == 7 || d == 0 || d == 1 {
        1
    } else if d == 3 || d == 4 || d == 5 {
        -1
    } else {
        0
    }
}

// ============================================================================
// MASK CONTAINERS
// ============================================================================

/// Pre-computed region masks of the board.
#[derive(Clone, Copy, Debug)]
pub struct RegionalMasks {
    pub corners: Bitboard,
    pub edges: Bitboard,
    pub center: Bitboard,
}

impl RegionalMasks {
    /// The 2x2 corner blocks, the border strips between them (with the 2x2 blocks next to the
    /// middle of each side) and the central 4x4 block.
    pub fn new() -> (r: Self)
        ensures
            r.corners.0 == 0xC3C300000000C3C3u64,
            r.edges.0 == 0x3C3CC3C3C3C33C3Cu64,
            r.center.0 == 0x00003C3C3C3C0000u64,
    {
        RegionalMasks {
            corners: Bitboard(0xC3C300000000C3C3),
            edges: Bitboard(0x3C3CC3C3C3C33C3C),
            center: Bitboard(0x00003C3C3C3C0000),
        }
    }
}

/// Checkerboard colour masks.
#[derive(Clone, Copy, Debug)]
pub struct ParityMasks {
    pub even: Bitboard,
    pub odd: Bitboard,
}

impl ParityMasks {
    /// The two colour classes of the checkerboard.
    pub fn new() -> (r: Self)
        ensures
            r.even.0 == 0x55AA55AA55AA55AAu64,
            r.odd.0 == 0xAA55AA55AA55AA55u64,
    {
        ParityMasks { even: Bitboard(0x55AA55AA55AA55AA), odd: Bitboard(0xAA55AA55AA55AA55) }
    }
}

/// The four diagonal rays leaving a square.
#[derive(Clone, Copy, Debug)]
pub struct DiagonalRays {
    pub ne: Bitboard,
    pub nw: Bitboard,
    pub se: Bitboard,
    pub sw: Bitboard,
}

/// Whether `rays` holds the diagonal rays of square `s`.
pub open spec fn rays_of(rays: DiagonalRays, s: int) -> bool {
    forall|t: u64|
        t < 64 ==> {
            &&& bit_set(rays.ne.0, t) == on_ray(s, t as int, 1, 1)
            &&& bit_set(rays.nw.0, t) == on_ray(s, t as int, -1, 1)
            &&& bit_set(rays.se.0, t) == on_ray(s, t as int, 1, -1)
            &&& bit_set(rays.sw.0, t) == on_ray(s, t as int, -1, -1)
        }
}

// ============================================================================
// ENGINE LOOK-UP TABLES
// ============================================================================

/// Pre-computed tables used by the evaluation and move helpers.
pub struct EngineLUTs {
    pub neighborhood_rotation_lut: [u8; 128],
    pub cardinal_offset_lut: [Bitboard; 16],
    pub diagonal_ray_lut: [DiagonalRays; 64],
    pub moore_neighborhood_lut: [Bitboard; 64],
    pub not_a_file: Bitboard,
    pub not_h_file: Bitboard,
    pub regions: RegionalMasks,
    pub parities: ParityMasks,
    pub centrality_lut: [u8; 64],
    pub centrality_rings: [u64; 4],
    pub topology_idx_lut: [u8; 64],
    pub topology_wall_masks: [u8; 9],
}

/// The wall masks of the border classes, in neighbour-direction bits (0 north, clockwise).
pub open spec fn wall_masks_spec() -> Seq<u8> {
    seq![
        0b00000000u8,
        0b00111000u8,
        0b10000011u8,
        0b11100000u8,
        0b00001110u8,
        0b11111000u8,
        0b00111110u8,
        0b11100011u8,
        0b10001111u8,
    ]
}

impl EngineLUTs {
    /// Every table holds what its specification says.
    pub open spec fn wf(&self) -> bool {
        &&& forall|key: int| 0 <= key < 128 ==> #[trigger] self.neighborhood_rotation_lut@[key]
            == arrival_word(key as u8)
        &&& forall|mask: int, t: u64|
            0 <= mask < 16 && t < 64 ==> #[trigger] bit_set(self.cardinal_offset_lut@[mask].0, t)
                == relative_mask_has(mask as u64, t)
        &&& forall|s: int| 0 <= s < 64 ==> rays_of(#[trigger] self.diagonal_ray_lut@[s], s)
        &&& forall|s: int, t: u64|
            0 <= s < 64 && t < 64 ==> #[trigger] bit_set(self.moore_neighborhood_lut@[s].0, t)
                == king_adjacent(s, t as int)
        &&& self.not_a_file.0 == 0xFEFEFEFEFEFEFEFEu64
        &&& self.not_h_file.0 == 0x7F7F7F7F7F7F7F7Fu64
        &&& self.regions.corners.0 == 0xC3C300000000C3C3u64
        &&& self.regions.edges.0 == 0x3C3CC3C3C3C33C3Cu64
        &&& self.regions.center.0 == 0x00003C3C3C3C0000u64
        &&& self.parities.even.0 == 0x55AA55AA55AA55AAu64
        &&& self.parities.odd.0 == 0xAA55AA55AA55AA55u64
        &&& forall|s: int| 0 <= s < 64 ==> #[trigger] self.centrality_lut@[s] == centrality(s)
        &&& forall|k: int, t: u64|
            0 <= k < 4 && t < 64 ==> #[trigger] bit_set(self.centrality_rings@[k], t) == (
            centrality(t as int) == k)
        &&& forall|s: int| 0 <= s < 64 ==> #[trigger] self.topology_idx_lut@[s] == topology_index(s)
        &&& self.topology_wall_masks@ == wall_masks_spec()
    }

    /// Builds every table.
    pub fn new() -> (r: Self)
        ensures
            r.wf(),
    {
        let r = EngineLUTs {
            neighborhood_rotation_lut: Self::generate_rotation_evaluator(),
            cardinal_offset_lut: Self::generate_relative_move_masks(),
            diagonal_ray_lut: Self::generate_diagonal_rays(),
            moore_neighborhood_lut: Self::generate_moore_neighborhood_lut(),
            not_a_file: Bitboard(0xFEFEFEFEFEFEFEFE),
            not_h_file: Bitboard(0x7F7F7F7F7F7F7F7F),
            regions: RegionalMasks::new(),
            parities: ParityMasks::new(),
            centrality_lut: Self::generate_centrality_lut(),
            centrality_rings: Self::generate_centrality_rings(),
            topology_idx_lut: Self::generate_topology_maps(),
            topology_wall_masks: [
                0b00000000,
                0b00111000,
                0b10000011,
                0b11100000,
                0b00001110,
                0b11111000,
                0b00111110,
                0b11100011,
                0b10001111,
            ],
        };
        assert(r.topology_wall_masks@ =~= wall_masks_spec());
        r
    }

    /// The tables, ready for use by the evaluation pipeline.
    pub fn get_engine_luts() -> (r: Self)
        ensures
            r.wf(),
    {
        Self::new()
    }

    /// The arrival word of every neighbourhood key.
    pub fn generate_rotation_evaluator() -> (table: [u8; 128])
        ensures
            forall|key: int| 0 <= key < 128 ==> #[trigger] table@[key] == arrival_word(key as u8),
    {
        let mut table = [0u8; 128];
        let mut key: u8 = 0;
        while key < 128
            invariant
                key <= 128,
                forall|k: int| 0 <= k < key ==> #[trigger] table@[k] == arrival_word(k as u8),
            decreases 128 - key,
        {
            let is_tr_occupied = (key >> 0u8) & 1 == 1;
            let is_e_occupied = (key >> 1u8) & 1 == 1;
            let is_br_occupied = (key >> 2u8) & 1 == 1;
            let is_s_occupied = (key >> 3u8) & 1 == 1;
            let is_bl_occupied = (key >> 4u8) & 1 == 1;
            let is_w_occupied = (key >> 5u8) & 1 == 1;
            let is_tl_occupied = (key >> 6u8) & 1 == 1;
            // Clockwise path (north -> east -> south -> west), then counter-clockwise.
            let east = !is_tr_occupied || (!is_tl_occupied && !is_w_occupied && !is_bl_occupied
                && !is_s_occupied && !is_br_occupied);
            let south = (!is_tr_occupied && !is_e_occupied && !is_br_occupied) || (!is_tl_occupied
                && !is_w_occupied && !is_bl_occupied);
            let west = (!is_tr_occupied && !is_e_occupied && !is_br_occupied && !is_s_occupied
                && !is_bl_occupied) || !is_tl_occupied;
            let arrival_mask: u8 = (if east { 2 } else { 0 }) + (if south { 4 } else { 0 }) + (
            if west { 8 } else { 0 });
            table[key as usize] = arrival_mask;
            key = key + 1;
        }
        table
    }

    /// The relative move mask of every 4-bit cardinal selector.
    pub fn generate_relative_move_masks() -> (table: [Bitboard; 16])
        ensures
            forall|mask: int, t: u64|
                0 <= mask < 16 && t < 64 ==> #[trigger] bit_set(table@[mask].0, t) == relative_mask_has(
                    mask as u64,
                    t,
                ),
    {
        let mut table = [Bitboard(0); 16];
        let mut mask: u64 = 0;
        while mask < 16
            invariant
                mask <= 16,
                forall|m: int, t: u64|
                    0 <= m < mask && t < 64 ==> #[trigger] bit_set(table@[m].0, t) == relative_mask_has(
                        m as u64,
                        t,
                    ),
            decreases 16 - mask,
        {
            let mut bitboard_val: u64 = 0;
            let target_north = (mask >> 0u64) & 1 == 1;
            let target_east = (mask >> 1u64) & 1 == 1;
            let target_south = (mask >> 2u64) & 1 == 1;
            let target_west = (mask >> 3u64) & 1 == 1;
            if target_north {
                bitboard_val = bitboard_val | (1u64 << (LOCAL_ORIGIN_IDX + 8));
            }
            if target_south {
                bitboard_val = bitboard_val | (1u64 << (LOCAL_ORIGIN_IDX - 8));
            }
            if target_east {
                bitboard_val = bitboard_val | (1u64 << (LOCAL_ORIGIN_IDX + 1));
            }
            if target_west {
                bitboard_val = bitboard_val | (1u64 << (LOCAL_ORIGIN_IDX - 1));
            }
            table[mask as usize] = Bitboard::new(bitboard_val);
            mask = mask + 1;
        }
        table
    }

    /// The four diagonal rays of every square.
    pub fn generate_diagonal_rays() -> (lut: [DiagonalRays; 64])
        ensures
            forall|s: int| 0 <= s < 64 ==> rays_of(#[trigger] lut@[s], s),
    {
        let empty = DiagonalRays {
            ne: Bitboard(0),
            nw: Bitboard(0),
            se: Bitboard(0),
            sw: Bitboard(0),
        };
        let mut lut = [empty; 64];
        let mut square: usize = 0;
        while square < 64
            invariant
                square <= 64,
                forall|s: int| 0 <= s < square ==> rays_of(#[trigger] lut@[s], s),
            decreases 64 - square,
        {
            let rays = DiagonalRays {
                ne: Self::generate_ray(square, 1, 1),
                nw: Self::generate_ray(square, -1, 1),
                se: Self::generate_ray(square, 1, -1),
                sw: Self::generate_ray(square, -1, -1),
            };
            lut[square] = rays;
            square = square + 1;
        }
        lut
    }

    /// The diagonal ray leaving `square` in direction (file_step, rank_step), up to the border.
    #[verifier::spinoff_prover]
    #[verifier::rlimit(50)]
    pub fn generate_ray(square: usize, file_step: i32, rank_step: i32) -> (r: Bitboard)
        requires
            square < 64,
            file_step == 1 || file_step == -1,
            rank_step == 1 || rank_step == -1,
        ensures
            forall|t: u64| t < 64 ==> bit_set(r.0, t) == on_ray(square as int, t as int, file_step as int, rank_step as int),
    {
        let mut ray_val: u64 = 0;
        let start_file = (square % 8) as i32;
        let start_rank = (square / 8) as i32;
        let mut f = start_file + file_step;
        let mut r = start_rank + rank_step;
        let mut k: i32 = 1;
        while f >= 0 && f < 8 && r >= 0 && r < 8
            invariant
                file_step == 1 || file_step == -1,
                rank_step == 1 || rank_step == -1,
                1 <= k <= 9,
                f == start_file + (if file_step > 0 { k as int } else { -k }),
                r == start_rank + (if rank_step > 0 { k as int } else { -k }),
                start_file == file_of(square as int),
                start_rank == rank_of(square as int),
                forall|t: u64| t < 64 ==> bit_set(ray_val, t) == (on_ray(square as int, t as int, file_step as int, rank_step as int)
                    && steps_f(square as int, t as int, file_step as int) < k),
            decreases 9 - k,
        {
            let target_square = (r * 8 + f) as u64;
            ray_val = ray_val | (1u64 << target_square);
            f = f + file_step;
            r = r + rank_step;
            k = k + 1;
        }
        Bitboard::new(ray_val)
    }

    /// The up to eight neighbours of every square.
    pub fn generate_moore_neighborhood_lut() -> (lut: [Bitboard; 64])
        ensures
            forall|s: int, t: u64|
                0 <= s < 64 && t < 64 ==> #[trigger] bit_set(lut@[s].0, t) == king_adjacent(s, t as int),
    {
        let mut lut = [Bitboard(0); 64];
        let mut i: usize = 0;
        while i < 64
            invariant
                i <= 64,
                forall|s: int, t: u64|
                    0 <= s < i && t < 64 ==> #[trigger] bit_set(lut@[s].0, t) == king_adjacent(s, t as int),
            decreases 64 - i,
        {
            let f = (i % 8) as i32;
            let r = (i / 8) as i32;
            let mut neighbors: u64 = 0;
            let mut df: i32 = -1;
            while df <= 1
                invariant
                    -1 <= df <= 2,
                    f == file_of(i as int),
                    r == rank_of(i as int),
                    i < 64,
                    forall|t: u64| t < 64 ==> bit_set(neighbors, t) == (king_adjacent(i as int, t as int)
                        && file_of(t as int) - f < df),
                decreases 2 - df,
            {
                let mut dr: i32 = -1;
                while dr <= 1
                    invariant
                        -1 <= df <= 1,
                        -1 <= dr <= 2,
                        f == file_of(i as int),
                        r == rank_of(i as int),
                        i < 64,
                        forall|t: u64| t < 64 ==> bit_set(neighbors, t) == (king_adjacent(i as int, t as int)
                            && (file_of(t as int) - f < df || (file_of(t as int) - f == df && rank_of(t as int) - r < dr))),
                    decreases 2 - dr,
                {
                    let nf = f + df;
                    let nr = r + dr;
                    if (df != 0 || dr != 0) && nf >= 0 && nf < 8 && nr >= 0 && nr < 8 {
                        neighbors = neighbors | (1u64 << ((nr * 8 + nf) as u64));
                    }
                    dr = dr + 1;
                }
                df = df + 1;
            }
            lut[i] = Bitboard::new(neighbors);
            i = i + 1;
        }
        lut
    }

    /// The border class of every square.
    pub fn generate_topology_maps() -> (idx_table: [u8; 64])
        ensures
            forall|s: int| 0 <= s < 64 ==> #[trigger] idx_table@[s] == topology_index(s),
    {
        let mut idx_table = [0u8; 64];
        let mut square: usize = 0;
        while square < 64
            invariant
                square <= 64,
                forall|s: int| 0 <= s < square ==> #[trigger] idx_table@[s] == topology_index(s),
            decreases 64 - square,
        {
            let rank = square / 8;
            let file = square % 8;
            let is_bottom = rank == 0;
            let is_top = rank == 7;
            let is_left = file == 0;
            let is_right = file == 7;
            let topo_idx: u8 = if !is_bottom && !is_top && !is_left && !is_right {
                0
            } else if is_bottom && !is_left && !is_right {
                1
            } else if is_top && !is_left && !is_right {
                2
            } else if is_left && !is_bottom && !is_top {
                3
            } else if is_right && !is_bottom && !is_top {
                4
            } else if is_bottom && is_left {
                5
            } else if is_bottom && is_right {
                6
            } else if is_top && is_left {
                7
            } else {
                8
            };
            idx_table[square] = topo_idx;
            square = square + 1;
        }
        idx_table
    }

    /// The distance to the border of every square.
    pub fn generate_centrality_lut() -> (lut: [u8; 64])
        ensures
            forall|s: int| 0 <= s < 64 ==> #[trigger] lut@[s] == centrality(s),
    {
        let mut lut = [0u8; 64];
        let mut square: usize = 0;
        while square < 64
            invariant
                square <= 64,
                forall|s: int| 0 <= s < square ==> #[trigger] lut@[s] == centrality(s),
            decreases 64 - square,
        {
            lut[square] = square_centrality(square);
            square = square + 1;
        }
        lut
    }

    /// For each distance 0..4 to the border, the squares at that distance.
    pub fn generate_centrality_rings() -> (rings: [u64; 4])
        ensures
            forall|k: int, t: u64| 0 <= k < 4 && t < 64 ==> #[trigger] bit_set(rings@[k], t) == (
                centrality(t as int) == k),
    {
        let mut rings = [0u64; 4];
        let mut square: u64 = 0;
        while square < 64
            invariant
                square <= 64,
                forall|k: int, t: u64| 0 <= k < 4 && t < 64 ==> #[trigger] bit_set(rings@[k], t) == (
                    centrality(t as int) == k && t < square),
            decreases 64 - square,
        {
            let c = square_centrality(square as usize) as usize;
            rings[c] = rings[c] | (1u64 << square);
            square = square + 1;
        }
        rings
    }
}

/// The distance of a square to the border.
fn square_centrality(square: usize) -> (c: u8)
    requires
        square < 64,
    ensures
        c == centrality(square as int),
        c < 4,
{
    let f = square % 8;
    let r = square / 8;
    let df = if f < 7 - f { f } else { 7 - f };
    let dr = if r < 7 - r { r } else { 7 - r };
    if df < dr {
        df as u8
    } else {
        dr as u8
    }
}

// ============================================================================
// LAWS
// ============================================================================

proof fn lemma_wall_word_bits(d: u8)
    by (bit_vector)
    requires
        d < 8,
    ensures
        ((0b00000000u8 >> d) & 1u8 == 1u8) == false,
        ((0b00111000u8 >> d) & 1u8 == 1u8) == (d == 3 || d == 4 || d == 5),
        ((0b10000011u8 >> d) & 1u8 == 1u8) == (d == 0 || d == 1 || d == 7),
        ((0b11100000u8 >> d) & 1u8 == 1u8) == (d == 5 || d == 6 || d == 7),
        ((0b00001110u8 >> d) & 1u8 == 1u8) == (d == 1 || d == 2 || d == 3),
        ((0b11111000u8 >> d) & 1u8 == 1u8) == (d == 3 || d == 4 || d == 5 || d == 6 || d == 7),
        ((0b00111110u8 >> d) & 1u8 == 1u8) == (d == 1 || d == 2 || d == 3 || d == 4 || d == 5),
        ((0b11100011u8 >> d) & 1u8 == 1u8) == (d == 0 || d == 1 || d == 5 || d == 6 || d == 7),
        ((0b10001111u8 >> d) & 1u8 == 1u8) == (d == 0 || d == 1 || d == 2 || d == 3 || d == 7),
{
}

/// The wall mask of a square's border class marks exactly the neighbour directions that leave
/// the board (bit `d` is direction `d`, 0 = north, clockwise).
pub proof fn lemma_wall_masks_match_border(s: int, d: u8)
    requires
        0 <= s < 64,
        d < 8,
    ensures
        ((wall_masks_spec()[topology_index(s) as int] >> d) & 1u8 == 1u8) == !on_board(
            file_of(s) + compass_f(d as int),
            rank_of(s) + compass_r(d as int),
        ),
{
    lemma_wall_word_bits(d);
}

/// The three region masks split the board: every square lies in exactly one of them.
pub proof fn lemma_regions_partition()
    ensures
        0xC3C300000000C3C3u64 | 0x3C3CC3C3C3C33C3Cu64 | 0x00003C3C3C3C0000u64 == 0xFFFF_FFFF_FFFF_FFFFu64,
        0xC3C300000000C3C3u64 & 0x3C3CC3C3C3C33C3Cu64 == 0u64,
        0xC3C300000000C3C3u64 & 0x00003C3C3C3C0000u64 == 0u64,
        0x3C3CC3C3C3C33C3Cu64 & 0x00003C3C3C3C0000u64 == 0u64,
{
    assert(0xC3C300000000C3C3u64 | 0x3C3CC3C3C3C33C3Cu64 | 0x00003C3C3C3C0000u64 == 0xFFFF_FFFF_FFFF_FFFFu64
        && 0xC3C300000000C3C3u64 & 0x3C3CC3C3C3C33C3Cu64 == 0u64 && 0xC3C300000000C3C3u64 & 0x00003C3C3C3C0000u64
        == 0u64 && 0x3C3CC3C3C3C33C3Cu64 & 0x00003C3C3C3C0000u64 == 0u64) by (bit_vector);
}

/// The two parity masks split the board into its two checkerboard colours: the first holds
/// the squares whose file and rank add up to an odd number.
pub proof fn lemma_parities_partition(s: u64)
    requires
        s < 64,
    ensures
        0x55AA55AA55AA55AAu64 | 0xAA55AA55AA55AA55u64 == 0xFFFF_FFFF_FFFF_FFFFu64,
        0x55AA55AA55AA55AAu64 & 0xAA55AA55AA55AA55u64 == 0u64,
        bit_set(0x55AA55AA55AA55AAu64, s) == ((s % 8 + s / 8) % 2 == 1),
{
    assert(0x55AA55AA55AA55AAu64 | 0xAA55AA55AA55AA55u64 == 0xFFFF_FFFF_FFFF_FFFFu64) by (bit_vector);
    assert(0x55AA55AA55AA55AAu64 & 0xAA55AA55AA55AA55u64 == 0u64) by (bit_vector);
    assert(s < 64 ==> (((0x55AA55AA55AA55AAu64 >> s) & 1u64 == 1u64) == ((s % 8 + s / 8) % 2 == 1)))
        by (bit_vector);
}

} // verus!
