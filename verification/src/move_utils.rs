use vstd::prelude::*;
use crate::bitboard::{Bitboard, bit_set, group_bits, lowest_bit, lemma_lowest_bit, lemma_lowest_bit_words, lemma_no_bits_zero};
use vstd::std_specs::bits::{u64_leading_zeros, axiom_u64_leading_zeros};
use crate::luts::{EngineLUTs, LOCAL_ORIGIN_IDX, topology_index, wall_masks_spec};
use crate::movegen::file_of;

verus! {

// ============================================================================
// MOVE GENERATION HELPERS
// ============================================================================

/// `t` is one of the up to four squares orthogonally next to `s`.
pub open spec fn orthogonally_adjacent(s: int, t: int) -> bool {
    &&& 0 <= t < 64
    &&& {
        ||| t == s + 8
        ||| t == s - 8
        ||| t == s + 1 && file_of(s) < 7
        ||| t == s - 1 && file_of(s) > 0
    }
}

/// The squares orthogonally next to a piece (north, south, east and west, without wrapping
/// around the board's sides).
pub fn get_orthogonal_mask(piece_idx: u8, luts: &EngineLUTs) -> (r: Bitboard)
    requires
        piece_idx < 64,
        luts.wf(),
    ensures
        forall|t: u64| t < 64 ==> bit_set(r.0, t) == orthogonally_adjacent(piece_idx as int, t as int),
{
    let piece_mask = 1u64 << piece_idx;
    let adjacent = (piece_mask >> 8u64) | (piece_mask << 8u64) | ((piece_mask << 1u64) & luts.not_a_file.0) | ((
    piece_mask >> 1u64) & luts.not_h_file.0);
    proof {
        let s = piece_idx as u64;
        assert forall|t: u64| t < 64 implies bit_set(adjacent, t) == orthogonally_adjacent(s as int, t as int) by {
            assert(((adjacent >> t) & 1u64 == 1u64) == (t == s + 8 || t + 8 == s || (t == s + 1 && s % 8 != 7) || (t
                + 1 == s && s % 8 != 0))) by (bit_vector)
                requires
                    s < 64,
                    t < 64,
                    adjacent == ((1u64 << s) >> 8u64) | ((1u64 << s) << 8u64) | (((1u64 << s) << 1u64)
                        & 0xFEFEFEFEFEFEFEFEu64) | (((1u64 << s) >> 1u64) & 0x7F7F7F7F7F7F7F7Fu64),
            ;
        }
    }
    Bitboard::new(adjacent)
}

/// Bit `j` of a byte.
pub open spec fn byte_bit(x: u8, j: u8) -> bool {
    (x >> j) & 1u8 == 1u8
}

/// `x` is the 4-bit mask `m` turned `off` places up: below 16, its bit `j` is the bit of `m`
/// `off` places below, wrapping within the four bits.
pub open spec fn turned(m: u8, off: u8, x: u8) -> bool {
    &&& x < 16
    &&& forall|j: u8| j < 4 ==> byte_bit(x, j) == byte_bit(m, ((j + 4 - off) % 4) as u8)
}

/// Turns a 4-bit arrival mask (bit 0 north, clockwise) from the frame of the approach back to
/// the board: each bit moves `initial_offset_type` places up, wrapping within the four bits.
pub fn align_relative_mask(relative_mask: u8, initial_offset_type: u8) -> (r: u8)
    requires
        initial_offset_type <= 4,
    ensures
        turned(relative_mask, initial_offset_type, r),
{
    let mask = relative_mask & 0x0F;
    let shifted = (mask << initial_offset_type) | (mask >> (4 - initial_offset_type));
    let r = shifted & 0x0F;
    proof {
        let o = initial_offset_type;
        assert(r < 16) by (bit_vector)
            requires
                r == shifted & 0x0Fu8,
        ;
        assert forall|j: u8| j < 4 implies byte_bit(r, j) == byte_bit(relative_mask, ((j + 4 - o) % 4) as u8) by {
            assert(((r >> j) & 1u8 == 1u8) == ((relative_mask >> (((j + 4 - o) % 4) as u8)) & 1u8 == 1u8))
                by (bit_vector)
                requires
                    j < 4,
                    o <= 4,
                    mask == relative_mask & 0x0Fu8,
                    shifted == (mask << o) | (mask >> ((4 - o) as u8)),
                    r == shifted & 0x0Fu8,
            ;
        }
    }
    r
}

/// A mask below 16 is fixed by its four low bits.
proof fn lemma_nibble_bits(x: u8, y: u8)
    requires
        x < 16,
        y < 16,
        byte_bit(x, 0) == byte_bit(y, 0),
        byte_bit(x, 1) == byte_bit(y, 1),
        byte_bit(x, 2) == byte_bit(y, 2),
        byte_bit(x, 3) == byte_bit(y, 3),
    ensures
        x == y,
{
    assert(x == y) by (bit_vector)
        requires
            x < 16u8,
            y < 16u8,
            ((x >> 0u8) & 1u8 == 1u8) == ((y >> 0u8) & 1u8 == 1u8),
            ((x >> 1u8) & 1u8 == 1u8) == ((y >> 1u8) & 1u8 == 1u8),
            ((x >> 2u8) & 1u8 == 1u8) == ((y >> 2u8) & 1u8 == 1u8),
            ((x >> 3u8) & 1u8 == 1u8) == ((y >> 3u8) & 1u8 == 1u8),
    ;
}

/// The four low bits of a byte, as a mask below 16.
proof fn lemma_low_nibble(m: u8)
    ensures
        m & 0x0F < 16,
        forall|j: u8| j < 4 ==> byte_bit(m & 0x0F, j) == byte_bit(m, j),
{
    assert(m & 0x0Fu8 < 16u8 && forall|j: u8| j < 4u8 ==> (((m & 0x0Fu8) >> j) & 1u8 == 1u8) == ((m >> j) & 1u8
        == 1u8)) by (bit_vector);
}

/// Turning a mask `a` places and the result `b` places turns it `a + b` places (modulo 4);
/// turning it back the `4 - a` places left gives its four low bits.
pub proof fn lemma_turns_compose(m: u8, a: u8, b: u8, x: u8, y: u8, z: u8)
    requires
        a <= 4,
        b <= 4,
        turned(m, a, x),
        turned(x, b, y),
        turned(m, ((a + b) % 4) as u8, z),
    ensures
        y == z,
        b == (4 - a) % 4 ==> y == m & 0x0F,
{
    assert forall|j: u8| j < 4 implies byte_bit(y, j) == byte_bit(z, j) by {
        let k = ((j + 4 - b) % 4) as u8;
        assert(byte_bit(y, j) == byte_bit(x, k));
        assert(byte_bit(x, k) == byte_bit(m, ((k + 4 - a) % 4) as u8));
        assert(((k + 4 - a) % 4) as u8 == ((j + 4 - ((a + b) % 4) as u8) % 4) as u8);
    }
    lemma_nibble_bits(y, z);
    if b == (4 - a) % 4 {
        lemma_low_nibble(m);
        assert forall|j: u8| j < 4 implies byte_bit(y, j) == byte_bit(m & 0x0F, j) by {
            assert(byte_bit(z, j) == byte_bit(m, ((j + 4 - 0u8) % 4) as u8));
        }
        lemma_nibble_bits(y, m & 0x0F);
    }
}

/// Moves a mask drawn around the template origin so that the origin lands on `pivot_idx`,
/// dropping what leaves the board and what wraps onto the opposite file.
pub open spec fn placed_mask_has(local_mask: u64, pivot_idx: int, t: int) -> bool {
    let source = t + LOCAL_ORIGIN_IDX - pivot_idx;
    &&& 0 <= source < 64
    &&& bit_set(local_mask, source as u64)
    &&& !(file_of(pivot_idx) == 0 && file_of(t) == 7)
    &&& !(file_of(pivot_idx) == 7 && file_of(t) == 0)
}

/// Places a mask drawn around the template origin onto the board around `pivot_idx`, clipping
/// the squares that wrap across the board's sides.
pub fn shift_and_clip_mask(local_mask: u64, pivot_idx: u8, luts: &EngineLUTs) -> (r: Bitboard)
    requires
        pivot_idx < 64,
        luts.wf(),
    ensures
        forall|t: u64| t < 64 ==> bit_set(r.0, t) == placed_mask_has(local_mask, pivot_idx as int, t as int),
{
    let shift_delta: i32 = pivot_idx as i32 - 28;
    let amount: u32 = (64 + shift_delta) as u32;
    let absolute_128: u128 = (local_mask as u128) << amount;
    let mut abs_mask: u64 = (absolute_128 >> 64u32) as u64;
    let pivot_file: i32 = (pivot_idx & 7) as i32;
    let is_a_file_mask: u64 = if pivot_file == 0 {
        u64::MAX
    } else {
        0
    };
    let is_h_file_mask: u64 = if pivot_file == 7 {
        u64::MAX
    } else {
        0
    };
    let shifted = abs_mask;
    abs_mask = abs_mask & !(is_a_file_mask & !luts.not_h_file.0);
    abs_mask = abs_mask & !(is_h_file_mask & !luts.not_a_file.0);
    proof {
        let p = pivot_idx as u64;
        assert forall|t: u64| t < 64 implies bit_set(abs_mask, t) == placed_mask_has(local_mask, p as int, t as int) by {
            assert(((shifted >> t) & 1u64 == 1u64) == (t + 28 >= p && t + 28 - p < 64 && (local_mask >> ((t + 28 - p) as u64)) & 1u64 == 1u64)) by (bit_vector)
                requires
                    p < 64,
                    t < 64,
                    amount == 36 + p,
                    absolute_128 == (local_mask as u128) << (amount as u128),
                    shifted == (absolute_128 >> 64u128) as u64,
            ;
            assert(((abs_mask >> t) & 1u64 == 1u64) == ((shifted >> t) & 1u64 == 1u64 && !(p % 8 == 0 && t % 8
                == 7) && !(p % 8 == 7 && t % 8 == 0))) by (bit_vector)
                requires
                    p < 64,
                    t < 64,
                    is_a_file_mask == (if p & 7 == 0 {
                        0xFFFF_FFFF_FFFF_FFFFu64
                    } else {
                        0u64
                    }),
                    is_h_file_mask == (if p & 7 == 7 {
                        0xFFFF_FFFF_FFFF_FFFFu64
                    } else {
                        0u64
                    }),
                    abs_mask == (shifted & !(is_a_file_mask & !0x7F7F7F7F7F7F7F7Fu64)) & !(is_h_file_mask
                        & !0xFEFEFEFEFEFEFEFEu64),
            ;
        }
    }
    Bitboard::new(abs_mask)
}

/// Rotates a word left by `n` places.
pub open spec fn spec_rotate_left(x: u64, n: u64) -> u64 {
    if n == 0 {
        x
    } else {
        (x << n) | (x >> ((64 - n) as u64))
    }
}

/// Rotates a word left by `n < 64` places, as `u64::rotate_left` does.
fn rotate_left_u64(x: u64, n: u64) -> (r: u64)
    requires
        n < 64,
    ensures
        r == spec_rotate_left(x, n),
{
    if n == 0 {
        x
    } else {
        (x << n) | (x >> (64 - n))
    }
}

/// Rotates a byte right by `n` places.
pub open spec fn spec_rotate_right_byte(x: u8, n: u8) -> u8 {
    if n == 0 {
        x
    } else {
        (x >> n) | (x << ((8 - n) as u8))
    }
}

/// Rotates a byte right by `n < 8` places, as `u8::rotate_right` does.
fn rotate_right_u8(x: u8, n: u8) -> (r: u8)
    requires
        n < 8,
    ensures
        r == spec_rotate_right_byte(x, n),
{
    if n == 0 {
        x
    } else {
        (x >> n) | (x << (8 - n))
    }
}

/// The index step to the neighbour in direction `d` (0 north, clockwise), plus a full board
/// so that it stays positive.
pub open spec fn neighbour_step(d: int) -> int {
    if d == 0 {
        72
    } else if d == 1 {
        73
    } else if d == 2 {
        65
    } else if d == 3 {
        57
    } else if d == 4 {
        56
    } else if d == 5 {
        55
    } else if d == 6 {
        63
    } else {
        71
    }
}

/// The neighbour of `p` in direction `d` counts as blocked: its square is occupied (squares
/// are taken around the board's edges) or the wall bits of `p`'s border class block it.
pub open spec fn neighbour_blocked(occ: u64, p: int, d: int) -> bool {
    ||| bit_set(occ, ((p + neighbour_step(d)) % 64) as u64)
    ||| byte_bit(wall_masks_spec()[topology_index(p) as int], d as u8)
}

/// The side a piece approaches its pivot from: 0 north, 1 east, 2 south, 3 west (for an
/// orthogonally adjacent piece), read off the index difference.
pub open spec fn approach_offset(piece_idx: u8, pivot_idx: u8) -> u8 {
    let d = piece_idx.wrapping_sub(pivot_idx);
    (d & 1u8) | ((d >> 3u8) & 2u8)
}

/// The 7-bit neighbourhood key of a pivot as seen by a piece swinging around it, and the side
/// the piece comes from. The key lists the blocked neighbours of the pivot clockwise, starting
/// one step after the piece's own side: bit `j` is direction `j + 1 + 2 * offset`.
pub fn generate_7bit_key(piece_idx: u8, pivot_idx: u8, occupancy: Bitboard, luts: &EngineLUTs) -> (r: (u8, u8))
    requires
        pivot_idx < 64,
        luts.wf(),
    ensures
        r.1 == approach_offset(piece_idx, pivot_idx),
        r.0 < 128,
        forall|j: u8|
            j < 7 ==> byte_bit(r.0, j) == neighbour_blocked(
                occupancy.0,
                pivot_idx as int,
                (j + 1 + 2 * r.1) % 8,
            ),
{
    let diff: u8 = 73 - pivot_idx;
    let shift_amt: u8 = diff & 63;
    assert(shift_amt < 64) by (bit_vector)
        requires
            shift_amt == diff & 63u8,
    ;
    let topo_idx = luts.topology_idx_lut[pivot_idx as usize];
    let shifted_occupancy = rotate_left_u64(occupancy.0, shift_amt as u64);
    let t = ((shifted_occupancy >> 17u64) & 1) as u8;
    let tr = ((shifted_occupancy >> 17u64) & 2) as u8;
    let rt = ((shifted_occupancy >> 8u64) & 4) as u8;
    let br = ((shifted_occupancy << 1u64) & 8) as u8;
    let b = ((shifted_occupancy << 3u64) & 16) as u8;
    let bl = ((shifted_occupancy << 5u64) & 32) as u8;
    let l = ((shifted_occupancy >> 2u64) & 64) as u8;
    let tl = ((shifted_occupancy >> 9u64) & 128) as u8;
    let mut packed_neighborhood = tl | l | bl | b | br | rt | tr | t;
    proof {
        assert(topo_idx == topology_index(pivot_idx as int));
        assert(topology_index(pivot_idx as int) < 9);
    }
    let wall_mask = luts.topology_wall_masks[topo_idx as usize];
    packed_neighborhood = packed_neighborhood | wall_mask;
    let d_u8 = piece_idx.wrapping_sub(pivot_idx);
    let initial_offset_type = (d_u8 & 1) | ((d_u8 >> 3) & 2);
    assert(initial_offset_type <= 3 && (initial_offset_type << 1u8) < 8) by (bit_vector)
        requires
            initial_offset_type == (d_u8 & 1u8) | ((d_u8 >> 3u8) & 2u8),
    ;
    let shift_amount = initial_offset_type << 1;
    let aligned_neighborhood = rotate_right_u8(packed_neighborhood, shift_amount);
    let key = (aligned_neighborhood >> 1) & 0x7F;
    proof {
        let p = pivot_idx as u64;
        let occ = occupancy.0;
        let w = wall_mask;
        let o = initial_offset_type;
        assert(key < 128) by (bit_vector)
            requires
                key == (aligned_neighborhood >> 1u8) & 0x7Fu8,
        ;
        assert forall|j: u8| j < 7 implies byte_bit(key, j) == neighbour_blocked(occ, p as int, (j + 1 + 2 * o) % 8) by {
            let dir = ((j + 1 + 2 * o) % 8) as u8;
            let step = neighbour_step(dir as int) as u64;
            lemma_key_rotation(packed_neighborhood, o, shift_amount, aligned_neighborhood, key, j, dir);
            lemma_packed_bit(occ, p, w, dir, step, diff, shift_amt, shifted_occupancy, packed_neighborhood);
        }
    }
    (key, initial_offset_type)
}

/// Bit `d` of the packed neighbourhood is the blocked state of direction `d`.
proof fn lemma_packed_bit(occ: u64, p: u64, w: u8, d: u8, step: u64, diff: u8, shift_amt: u8, so: u64, packed: u8)
    requires
        p < 64,
        d < 8,
        step == (if d == 0u8 {
            72u64
        } else if d == 1u8 {
            73u64
        } else if d == 2u8 {
            65u64
        } else if d == 3u8 {
            57u64
        } else if d == 4u8 {
            56u64
        } else if d == 5u8 {
            55u64
        } else if d == 6u8 {
            63u64
        } else {
            71u64
        }),
        diff == (73 - p) as u8,
        shift_amt == diff & 63u8,
        so == (if shift_amt == 0u8 {
            occ
        } else {
            (occ << (shift_amt as u64)) | (occ >> ((64 - shift_amt) as u64))
        }),
        packed == (((so >> 9u64) & 128u64) as u8 | ((so >> 2u64) & 64u64) as u8 | ((so << 5u64) & 32u64) as u8 | ((so
            << 3u64) & 16u64) as u8 | ((so << 1u64) & 8u64) as u8 | ((so >> 8u64) & 4u64) as u8 | ((so >> 17u64)
            & 2u64) as u8 | ((so >> 17u64) & 1u64) as u8) | w,
    ensures
        ((packed >> d) & 1u8 == 1u8) == ((occ >> (((p + step) % 64) as u64)) & 1u64 == 1u64 || (w >> d) & 1u8 == 1u8),
{
    assert(((packed >> d) & 1u8 == 1u8) == ((occ >> (((p + step) % 64) as u64)) & 1u64 == 1u64 || (w >> d) & 1u8
        == 1u8)) by (bit_vector)
        requires
            p < 64,
            d < 8,
            step == (if d == 0u8 {
                72u64
            } else if d == 1u8 {
                73u64
            } else if d == 2u8 {
                65u64
            } else if d == 3u8 {
                57u64
            } else if d == 4u8 {
                56u64
            } else if d == 5u8 {
                55u64
            } else if d == 6u8 {
                63u64
            } else {
                71u64
            }),
            diff == (73 - p) as u8,
            shift_amt == diff & 63u8,
            so == (if shift_amt == 0u8 {
                occ
            } else {
                (occ << (shift_amt as u64)) | (occ >> ((64 - shift_amt) as u64))
            }),
            packed == (((so >> 9u64) & 128u64) as u8 | ((so >> 2u64) & 64u64) as u8 | ((so << 5u64) & 32u64) as u8
                | ((so << 3u64) & 16u64) as u8 | ((so << 1u64) & 8u64) as u8 | ((so >> 8u64) & 4u64) as u8 | ((so
                >> 17u64) & 2u64) as u8 | ((so >> 17u64) & 1u64) as u8) | w,
    ;
}

/// Bit `j` of the key is bit `j + 1 + 2 * o` of the packed neighbourhood.
proof fn lemma_key_rotation(packed: u8, o: u8, sa: u8, al: u8, key: u8, j: u8, dir: u8)
    requires
        j < 7,
        o <= 3,
        dir == ((j + 1 + 2 * o) % 8) as u8,
        sa == o << 1u8,
        al == (if sa == 0 {
            packed
        } else {
            (packed >> sa) | (packed << ((8 - sa) as u8))
        }),
        key == (al >> 1u8) & 0x7Fu8,
    ensures
        ((key >> j) & 1u8 == 1u8) == ((packed >> dir) & 1u8 == 1u8),
{
    assert(((key >> j) & 1u8 == 1u8) == ((packed >> dir) & 1u8 == 1u8)) by (bit_vector)
        requires
            j < 7,
            o <= 3,
            dir == ((j + 1 + 2 * o) % 8) as u8,
            sa == o << 1u8,
            al == (if sa == 0 {
                packed
            } else {
                (packed >> sa) | (packed << ((8 - sa) as u8))
            }),
            key == (al >> 1u8) & 0x7Fu8,
    ;
}

// ============================================================================
// DIAGONAL FROG-HOPS
// ============================================================================

/// Square `i` of the ray is open for landing: on the ray and not allied.
pub open spec fn ray_hole(ray: u64, allied: u64, i: u64) -> bool {
    bit_set(ray, i) && !bit_set(allied, i)
}

/// Square `i` is the first open ray square at or above `k`.
pub open spec fn first_hole_up(ray: u64, allied: u64, k: u64, i: u64) -> bool {
    &&& k <= i < 64
    &&& ray_hole(ray, allied, i)
    &&& forall|u: u64| k <= u < i ==> !ray_hole(ray, allied, u)
}

/// Square `i` is the highest open ray square.
pub open spec fn first_hole_down(ray: u64, allied: u64, i: u64) -> bool {
    &&& i < 64
    &&& ray_hole(ray, allied, i)
    &&& forall|u: u64| i < u < 64 ==> !ray_hole(ray, allied, u)
}

/// Square `i` of the ray holds an ally.
pub open spec fn ray_ally(ray: u64, allied: u64, i: u64) -> bool {
    bit_set(ray, i) && bit_set(allied, i)
}

/// The square next to the piece along the ray's direction, when it is on the index range.
pub open spec fn ray_neighbour(piece_idx: u8, neighbor_shift: i32) -> int {
    piece_idx + neighbor_shift
}

/// Bits of single-square words shifted either way.
proof fn lemma_shifted_square(p: u64, n: u64, i: u64)
    requires
        p < 64,
        n < 64,
        i < 64,
    ensures
        ((((1u64 << p) << n) >> i) & 1u64 == 1u64) == (i == p + n),
        ((((1u64 << p) >> n) >> i) & 1u64 == 1u64) == (i + n == p),
{
    assert(((((1u64 << p) << n) >> i) & 1u64 == 1u64) == (i == p + n) && ((((1u64 << p) >> n) >> i) & 1u64
        == 1u64) == (i + n == p)) by (bit_vector)
        requires
            p < 64,
            n < 64,
            i < 64,
    ;
}

/// Adding the single bit `k` to a word whose bit `k` is set ripples a carry through the run of
/// set bits from `k` up, and the bit it stops on is the lowest clear bit at or above `k`.
proof fn lemma_carry_ripple(s: u64, k: u64, carry: u64)
    requires
        k < 64,
        (s >> k) & 1u64 == 1u64,
        carry == (if s + (1u64 << k) > 0xFFFF_FFFF_FFFF_FFFFu64 {
            (s + (1u64 << k) - 0x1_0000_0000_0000_0000) as u64
        } else {
            (s + (1u64 << k)) as u64
        }),
    ensures
        carry & !s == (!s & (0xFFFF_FFFF_FFFF_FFFFu64 << k)) & ((!(!s & (0xFFFF_FFFF_FFFF_FFFFu64 << k)) + 1) as u64),
        forall|i: u64| i < 64 ==> #[trigger] bit_set(0xFFFF_FFFF_FFFF_FFFFu64 << k, i) == (i >= k),
{
    assert(carry & !s == (!s & (0xFFFF_FFFF_FFFF_FFFFu64 << k)) & ((!(!s & (0xFFFF_FFFF_FFFF_FFFFu64 << k)) + 1) as u64))
        by (bit_vector)
        requires
            k < 64,
            (s >> k) & 1u64 == 1u64,
            carry == (if s + (1u64 << k) > 0xFFFF_FFFF_FFFF_FFFFu64 {
                (s + (1u64 << k) - 0x1_0000_0000_0000_0000) as u64
            } else {
                (s + (1u64 << k)) as u64
            }),
    ;
    assert forall|i: u64| i < 64 implies #[trigger] bit_set(0xFFFF_FFFF_FFFF_FFFFu64 << k, i) == (i >= k) by {
        assert((((0xFFFF_FFFF_FFFF_FFFFu64 << k) >> i) & 1u64 == 1u64) == (i >= k)) by (bit_vector)
            requires
                k < 64,
                i < 64,
        ;
    }
}

/// The bit at `63 - leading_zeros` is the highest set bit of a nonzero word.
proof fn lemma_highest_bit(x: u64)
    requires
        x != 0,
    ensures
        0 <= u64_leading_zeros(x) < 64,
        bit_set(x, (63 - u64_leading_zeros(x)) as u64),
        forall|u: u64| (63 - u64_leading_zeros(x)) < u < 64 ==> !#[trigger] bit_set(x, u),
{
    axiom_u64_leading_zeros(x);
    let h = (63 - u64_leading_zeros(x)) as u64;
    assert forall|u: u64| h < u < 64 implies !#[trigger] bit_set(x, u) by {
        let top = (64 - u64_leading_zeros(x)) as u64;
        assert(x >> top == 0u64);
        assert((x >> u) & 1u64 == 0u64) by (bit_vector)
            requires
                x >> top == 0u64,
                top <= u,
                u < 64,
        ;
    }
    assert((x >> h) & 1u64 != 0u64 ==> (x >> h) & 1u64 == 1u64) by (bit_vector);
}

/// The landing square of a frog-hop from `piece_idx` along a diagonal ray: the neighbour
/// along the ray (at `piece_idx + neighbor_shift`) must be an ally; the piece then jumps the
/// unbroken run of allies and lands on the first open ray square past it, going up in index
/// on forward rays and down on backward ones. No landing square gives the empty board. The
/// landing square is never allied, so the control map and the move map agree.
pub fn compute_ray_moves<const IS_CONTROL_EVAL: bool, F: Fn(Bitboard) -> u32>(
    ray: Bitboard,
    allied_blockers: Bitboard,
    piece_idx: u8,
    neighbor_shift: i32,
    _find_closest_bit: F,
) -> (r: Bitboard)
    requires
        piece_idx < 64,
        neighbor_shift != i32::MIN,
    ensures
        !(0 <= ray_neighbour(piece_idx, neighbor_shift) < 64 && ray_ally(ray.0, allied_blockers.0, ray_neighbour(piece_idx, neighbor_shift) as u64))
            ==> r.0 == 0,
        (0 <= ray_neighbour(piece_idx, neighbor_shift) < 64 && ray_ally(ray.0, allied_blockers.0, ray_neighbour(piece_idx, neighbor_shift) as u64))
            ==> forall|i: u64|
            i < 64 ==> #[trigger] bit_set(r.0, i) == if neighbor_shift > 0 {
                first_hole_up(ray.0, allied_blockers.0, ray_neighbour(piece_idx, neighbor_shift) as u64, i)
            } else {
                first_hole_down(ray.0, allied_blockers.0, i)
            },
{
    broadcast use group_bits;

    let piece_bit = 1u64 << piece_idx;
    let ray_allies = ray.0 & allied_blockers.0;
    let immediate_neighbor: u64 = if neighbor_shift > 0 {
        let n = neighbor_shift as u32;
        if n < 64 {
            piece_bit << n
        } else {
            0
        }
    } else {
        let n = (-neighbor_shift) as u32;
        if n < 64 {
            piece_bit >> n
        } else {
            0
        }
    };
    let ghost nb = ray_neighbour(piece_idx, neighbor_shift);
    let ghost in_range = 0 <= nb < 64;
    proof {
        assert forall|i: u64| i < 64 implies #[trigger] bit_set(immediate_neighbor, i) == (in_range && i == nb) by {
            if neighbor_shift > 0 {
                if neighbor_shift < 64 {
                    lemma_shifted_square(piece_idx as u64, neighbor_shift as u64, i);
                }
            } else {
                if -neighbor_shift < 64 {
                    lemma_shifted_square(piece_idx as u64, (-neighbor_shift) as u64, i);
                }
            }
        }
        if in_range && bit_set(ray_allies, nb as u64) {
            assert(bit_set(immediate_neighbor & ray_allies, nb as u64));
        } else {
            assert forall|i: u64| i < 64 implies !bit_set(immediate_neighbor & ray_allies, i) by {}
            lemma_no_bits_zero(immediate_neighbor & ray_allies);
        }
    }
    if (immediate_neighbor & ray_allies) == 0 {
        return Bitboard::new(0);
    }
    let mut landing_square: u64 = 0;
    if neighbor_shift > 0 {
        let state_mask = ray_allies | !ray.0;
        let carry_ripple = state_mask.wrapping_add(immediate_neighbor);
        landing_square = carry_ripple & !state_mask;
        proof {
            let k = nb as u64;
            assert(immediate_neighbor == 1u64 << k) by {
                assert forall|i: u64| i < 64 implies bit_set(immediate_neighbor, i) == bit_set(1u64 << k, i) by {}
                crate::bitboard::lemma_bits_ext(immediate_neighbor, 1u64 << k);
            }
            assert(bit_set(state_mask, k));
            lemma_carry_ripple(state_mask, k, carry_ripple);
            let h = !state_mask & (0xFFFF_FFFF_FFFF_FFFFu64 << k);
            assert forall|i: u64| i < 64 implies #[trigger] bit_set(h, i) == (i >= k && ray_hole(
                ray.0,
                allied_blockers.0,
                i,
            )) by {}
            lemma_lowest_bit(h);
            if h != 0 {
                lemma_lowest_bit_words(h);
                let low = lowest_bit(h);
                assert forall|i: u64| i < 64 implies #[trigger] bit_set(landing_square, i) == first_hole_up(
                    ray.0,
                    allied_blockers.0,
                    k,
                    i,
                ) by {
                    assert(landing_square == 1u64 << low);
                    assert(bit_set(landing_square, i) == (i == low));
                    if first_hole_up(ray.0, allied_blockers.0, k, i) {
                        assert(bit_set(h, i));
                        if low < i {
                            assert(bit_set(h, low));
                            assert(!ray_hole(ray.0, allied_blockers.0, low));
                        }
                    }
                    if i == low {
                        assert(bit_set(h, low));
                        assert forall|u: u64| k <= u < i implies !ray_hole(ray.0, allied_blockers.0, u) by {
                            assert(!bit_set(h, u));
                        }
                    }
                }
            } else {
                assert((0u64 & ((!0u64 + 1) as u64)) == 0u64) by (bit_vector);
                assert forall|i: u64| i < 64 implies #[trigger] bit_set(landing_square, i) == first_hole_up(
                    ray.0,
                    allied_blockers.0,
                    k,
                    i,
                ) by {
                    if first_hole_up(ray.0, allied_blockers.0, k, i) {
                        assert(bit_set(h, i));
                    }
                }
            }
        }
    } else {
        let ray_holes = !ray_allies & ray.0;
        proof {
            assert forall|i: u64| i < 64 implies #[trigger] bit_set(ray_holes, i) == ray_hole(ray.0, allied_blockers.0, i)
                by {}
        }
        if ray_holes != 0 {
            let closest_hole_idx = 63 - ray_holes.leading_zeros();
            proof {
                lemma_highest_bit(ray_holes);
            }
            landing_square = 1u64 << closest_hole_idx;
            proof {
                let hi = closest_hole_idx as u64;
                assert forall|i: u64| i < 64 implies #[trigger] bit_set(landing_square, i) == first_hole_down(
                    ray.0,
                    allied_blockers.0,
                    i,
                ) by {
                    assert(bit_set(landing_square, i) == (i == hi));
                    if first_hole_down(ray.0, allied_blockers.0, i) {
                        if i < hi {
                            assert(bit_set(ray_holes, hi));
                        }
                        if i > hi {
                            assert(bit_set(ray_holes, i));
                        }
                    }
                    if i == hi {
                        assert(bit_set(ray_holes, hi));
                        assert forall|u: u64| i < u < 64 implies !ray_hole(ray.0, allied_blockers.0, u) by {
                            assert(!bit_set(ray_holes, u));
                        }
                    }
                }
            }
        } else {
            proof {
                assert forall|i: u64| i < 64 implies #[trigger] bit_set(landing_square, i) == first_hole_down(
                    ray.0,
                    allied_blockers.0,
                    i,
                ) by {
                    if first_hole_down(ray.0, allied_blockers.0, i) {
                        assert(bit_set(ray_holes, i));
                    }
                }
            }
        }
    }
    proof {
        assert forall|i: u64| i < 64 && bit_set(landing_square, i) implies bit_set(ray.0, i) && !bit_set(
            allied_blockers.0,
            i,
        ) by {}
        if landing_square != 0 {
            let w = landing_square;
            lemma_lowest_bit(w);
            assert(bit_set(landing_square & ray.0, lowest_bit(w)));
        }
    }
    if (landing_square & ray.0) == 0 {
        proof {
            if landing_square != 0 {
                lemma_lowest_bit(landing_square);
                assert(bit_set(0u64, lowest_bit(landing_square)));
            }
            assert forall|i: u64| i < 64 implies !#[trigger] bit_set(landing_square, i) by {}
        }
        return Bitboard::new(0);
    }
    let landing_mask = Bitboard::new(landing_square);
    if IS_CONTROL_EVAL {
        landing_mask
    } else {
        Bitboard::new(landing_mask.0 & !allied_blockers.0)
    }
}

} // verus!
