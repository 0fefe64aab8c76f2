use core_engine::bitboard::Bitboard;
use core_engine::heuristics::{
    generate_intermediate_assets, reduce_assets_to_matrix, IntermediateBatch, StructuralMoveMap,
    VerticalDensityMap,
};
use core_engine::luts::EngineLUTs;
use core_engine::movegen::generate_piece_moves;

fn batch(l0: u64, l1: u64, l2: u64) -> IntermediateBatch {
    IntermediateBatch {
        union_map: StructuralMoveMap { collective_moves: Bitboard(l0 | l1 | l2) },
        density: VerticalDensityMap { layer_0: Bitboard(l0), layer_1: Bitboard(l1), layer_2: Bitboard(l2) },
    }
}

#[test]
fn reduction_reads_any_two_batches() {
    let luts = EngineLUTs::get_engine_luts();
    // ally:enemy counters 1:0 on a1, 1:1 on b1, 0:1 on c1, 2:1 on d1, 0:0 elsewhere.
    let ally = batch(0b0011, 0b1000, 0);
    let enemy = batch(0b1110, 0, 0);
    let v = reduce_assets_to_matrix(&ally, &enemy, Bitboard(0), Bitboard(0), &luts).values;
    assert_eq!(v[0][0][0][1], 1);
    assert_eq!(v[0][3][0][0], 1);
    assert_eq!(v[0][5][1][1], 1);
    assert_eq!(v[0][1][1][0], 1);
    assert_eq!(v[0][2], [[7, 7], [15, 15], [8, 8]]);
    let mut total: u32 = 0;
    for t in 0..3 {
        for s in 0..6 {
            for g in 0..3 {
                for p in 0..2 {
                    total += v[t][s][g][p] as u32;
                }
            }
        }
    }
    assert_eq!(total, 64);
    for t in 1..3 {
        assert_eq!(v[t], [[[0u8; 2]; 3]; 6]);
    }
}

fn attack_counts(movers: Bitboard, targets: Bitboard) -> ([u32; 64], u64) {
    let mut counts = [0u32; 64];
    let mut union = 0u64;
    for piece in 0..64u8 {
        if movers.0 >> piece & 1 == 1 {
            let m = generate_piece_moves(piece, movers, targets, true).0;
            union |= m;
            for sq in 0..64 {
                if m >> sq & 1 == 1 {
                    counts[sq] += 1;
                }
            }
        }
    }
    (counts, union)
}

#[test]
fn density_counters_saturate_at_seven() {
    // Diagonal chains converging on d4 from all four sides: every piece of a chain lands there.
    let star: u64 = [0u32, 9, 18, 6, 13, 20, 48, 41, 34, 63, 54, 45, 36].iter().fold(0, |acc, &sq| acc | (1u64 << sq));
    let mut seed: u64 = 0x9E37_79B9_7F4A_7C15;
    let mut saturated = 0;
    for round in 0..400 {
        seed = seed.wrapping_mul(6364136223846793005).wrapping_add(1442695040888963407);
        let movers = if round == 0 { Bitboard(star) } else { Bitboard(seed & (seed >> 7) | 0x0000_0018_1800_0000) };
        seed = seed.wrapping_mul(6364136223846793005).wrapping_add(1442695040888963407);
        let targets = if round == 0 { Bitboard(0) } else { Bitboard(seed & !movers.0 & (seed >> 11)) };
        let b = generate_intermediate_assets(movers, targets);
        let (counts, union) = attack_counts(movers, targets);
        if counts.iter().any(|&c| c >= 8) {
            saturated += 1;
        }
        assert_eq!(b.union_map.collective_moves.0, union);
        for sq in 0..64 {
            let d = (b.density.layer_0.0 >> sq & 1) + 2 * (b.density.layer_1.0 >> sq & 1)
                + 4 * (b.density.layer_2.0 >> sq & 1);
            assert_eq!(d as u32, counts[sq].min(7), "square {}", sq);
        }
    }
    assert!(saturated > 0);
}

#[test]
fn lowest_square_of_a_board() {
    assert_eq!(Bitboard(0).least_significant_bit(), Bitboard(0));
    assert_eq!(Bitboard(0xA0).least_significant_bit(), Bitboard(0x20));
    assert_eq!(Bitboard(1u64 << 63).least_significant_bit(), Bitboard(1u64 << 63));
}

#[test]
fn features_mirror_between_the_sides() {
    let luts = EngineLUTs::get_engine_luts();
    let tile = [0usize, 2, 1];
    let sovereignty = [5usize, 4, 2, 3, 1, 0];
    let positions = [
        (0x0000_0000_0000_ffffu64, 0xffff_0000_0000_0000u64),
        (0x0000_0000_0018_2400, 0x0042_1800_0000_0000),
        (0x8100_0000_0000_0081, 0x0000_0018_1800_0000),
    ];
    for &(a, e) in positions.iter() {
        let m = heuristics_matrix(a, e, &luts);
        let mirrored = heuristics_matrix(e, a, &luts);
        for t in 0..3 {
            for s in 0..6 {
                for g in 0..3 {
                    for p in 0..2 {
                        assert_eq!(mirrored[tile[t]][sovereignty[s]][g][p], m[t][s][g][p]);
                    }
                }
            }
        }
    }
}

fn heuristics_matrix(a: u64, e: u64, luts: &EngineLUTs) -> [[[[u8; 2]; 3]; 6]; 3] {
    core_engine::heuristics::evaluate_position(Bitboard(a), Bitboard(e), luts).values
}

#[test]
fn tile_sums_count_the_pieces_and_the_board() {
    let luts = EngineLUTs::get_engine_luts();
    let positions = [
        (0x0000_0000_0000_ff00u64, 0x00ff_0000_0000_0000u64),
        (0x0000_0000_0018_0000, 0x0000_1800_0000_0000),
        (0x0000_0000_0000_0303, 0x0000_0000_0c0c_0000),
        (1, 1 << 63),
    ];
    for (a, e) in positions.iter() {
        let m = heuristics_matrix(*a, *e, &luts);
        let tile_sum = |t: usize| -> u32 {
            let mut total = 0u32;
            for s in 0..6 {
                for g in 0..3 {
                    for p in 0..2 {
                        total += m[t][s][g][p] as u32;
                    }
                }
            }
            total
        };
        assert_eq!(tile_sum(1), a.count_ones());
        assert_eq!(tile_sum(2), e.count_ones());
        assert_eq!(tile_sum(0) + tile_sum(1) + tile_sum(2), 64);
    }
}

#[test]
fn region_parity_sums_count_their_squares() {
    let luts = EngineLUTs::get_engine_luts();
    let regions = [0xC3C3_0000_0000_C3C3u64, 0x3C3C_C3C3_C3C3_3C3C, 0x0000_3C3C_3C3C_0000];
    let parities = [0x55AA_55AA_55AA_55AAu64, 0xAA55_AA55_AA55_AA55];
    let positions = [
        (0x0000_0000_0000_ff00u64, 0x00ff_0000_0000_0000u64),
        (0x0000_0000_0018_0000, 0x0000_1800_0000_0000),
        (0x0000_0000_0000_0303, 0x0000_0000_0c0c_0000),
    ];
    for (a, e) in positions.iter() {
        let m = heuristics_matrix(*a, *e, &luts);
        for g in 0..3 {
            for p in 0..2 {
                let mut total = 0u32;
                for t in 0..3 {
                    for s in 0..6 {
                        total += m[t][s][g][p] as u32;
                    }
                }
                assert_eq!(total, (regions[g] & parities[p]).count_ones());
            }
        }
    }
}
