use core_engine::bitboard::Bitboard;
use core_engine::heuristics::{ParityType, RegionType};
use core_engine::luts::EngineLUTs;
use core_engine::move_utils::{
    align_relative_mask, compute_ray_moves, generate_7bit_key, get_orthogonal_mask, shift_and_clip_mask,
};

fn bits(squares: &[u8]) -> u64 {
    squares.iter().fold(0u64, |acc, &s| acc | (1u64 << s))
}

#[test]
fn centrality_and_topology_tables() {
    let luts = EngineLUTs::get_engine_luts();
    assert_eq!(luts.centrality_lut[27], 3);
    assert_eq!(luts.centrality_lut[0], 0);
    assert_eq!(luts.centrality_lut[9], 1);
    assert_eq!(luts.centrality_lut[18], 2);
    assert_eq!(luts.centrality_rings[3], bits(&[27, 28, 35, 36]));
    assert_eq!(luts.topology_idx_lut[27], 0);
    assert_eq!(luts.topology_idx_lut[3], 1);
    assert_eq!(luts.topology_idx_lut[59], 2);
    assert_eq!(luts.topology_idx_lut[24], 3);
    assert_eq!(luts.topology_idx_lut[31], 4);
    assert_eq!(luts.topology_idx_lut[0], 5);
    assert_eq!(luts.topology_idx_lut[7], 6);
    assert_eq!(luts.topology_idx_lut[56], 7);
    assert_eq!(luts.topology_idx_lut[63], 8);
}

#[test]
fn neighbourhood_and_ray_tables() {
    let luts = EngineLUTs::get_engine_luts();
    assert_eq!(luts.moore_neighborhood_lut[0].0, bits(&[1, 8, 9]));
    assert_eq!(luts.moore_neighborhood_lut[27].0, bits(&[18, 19, 20, 26, 28, 34, 35, 36]));
    assert_eq!(luts.diagonal_ray_lut[0].ne.0, 0x8040201008040200);
    assert_eq!(luts.diagonal_ray_lut[0].sw.0, 0);
    assert_eq!(luts.diagonal_ray_lut[63].sw.0, 0x0040201008040201);
    assert_eq!(EngineLUTs::generate_ray(7, -1, 1).0, luts.diagonal_ray_lut[7].nw.0);
    assert_eq!(luts.not_a_file.0, 0xFEFEFEFEFEFEFEFE);
    assert_eq!(luts.not_h_file.0, 0x7F7F7F7F7F7F7F7F);
}

#[test]
fn regions_and_parities_partition_the_board() {
    let luts = EngineLUTs::get_engine_luts();
    let c = luts.regions.get(RegionType::Corner2x2).0;
    let e = luts.regions.get(RegionType::Edge4x2).0;
    let m = luts.regions.get(RegionType::Center4x4).0;
    assert_eq!(c | e | m, u64::MAX);
    assert_eq!(c & e, 0);
    assert_eq!(c & m, 0);
    assert_eq!(e & m, 0);
    let even = luts.parities.get(ParityType::Even).0;
    let odd = luts.parities.get(ParityType::Odd).0;
    assert_eq!(even | odd, u64::MAX);
    assert_eq!(even & odd, 0);
}

#[test]
fn rotation_table_reads_arrivals() {
    let luts = EngineLUTs::get_engine_luts();
    // Nothing around the pivot: the piece arrives east, south and west.
    assert_eq!(luts.neighborhood_rotation_lut[0], 0b1110);
    // Everything blocked: it goes nowhere.
    assert_eq!(luts.neighborhood_rotation_lut[127], 0);
    // Both northern corners blocked: the piece cannot start swinging either way.
    assert_eq!(luts.neighborhood_rotation_lut[65], 0);
    // North-east corner and west blocked: only the counter-clockwise quarter turn to the west.
    assert_eq!(luts.neighborhood_rotation_lut[33], 0b1000);
}

#[test]
fn orthogonal_masks_stop_at_the_sides() {
    let luts = EngineLUTs::get_engine_luts();
    assert_eq!(get_orthogonal_mask(0, &luts).0, bits(&[1, 8]));
    assert_eq!(get_orthogonal_mask(27, &luts).0, bits(&[19, 26, 28, 35]));
    assert_eq!(get_orthogonal_mask(7, &luts).0, bits(&[6, 15]));
    assert_eq!(get_orthogonal_mask(56, &luts).0, bits(&[48, 57]));
}

#[test]
fn relative_masks_rotate_within_four_bits() {
    assert_eq!(align_relative_mask(0b0001, 1), 0b0010);
    assert_eq!(align_relative_mask(0b1000, 1), 0b0001);
    assert_eq!(align_relative_mask(0b0101, 4), 0b0101);
    assert_eq!(align_relative_mask(0b1111, 0), 0b1111);
    assert_eq!(align_relative_mask(0x13, 2), 0b1100);
}

#[test]
fn template_masks_are_placed_and_clipped() {
    let luts = EngineLUTs::get_engine_luts();
    assert_eq!(shift_and_clip_mask(1 << 28, 28, &luts).0, 1 << 28);
    assert_eq!(shift_and_clip_mask(1 << 36, 0, &luts).0, 1 << 8);
    assert_eq!(shift_and_clip_mask(1 << 27, 0, &luts).0, 0);
    assert_eq!(shift_and_clip_mask(1 << 29, 7, &luts).0, 0);
    assert_eq!(shift_and_clip_mask((1 << 29) | (1 << 36), 7, &luts).0, 1 << 15);
}

#[test]
fn neighbourhood_keys() {
    let luts = EngineLUTs::get_engine_luts();
    // Piece north of an interior pivot, nothing else around: no neighbour blocked.
    assert_eq!(generate_7bit_key(35, 27, Bitboard::new(bits(&[27, 35])), &luts), (0, 0));
    // Piece east of the pivot with a piece north of it: the north neighbour is key bit 5.
    assert_eq!(generate_7bit_key(28, 27, Bitboard::new(bits(&[27, 28, 35])), &luts), (32, 1));
    // Piece north of a corner pivot: the walls block south-east round to north-west.
    assert_eq!(generate_7bit_key(8, 0, Bitboard::new(bits(&[0, 8])), &luts), (0b1111100, 0));
    // Approach offsets: south is 2, west is 3.
    assert_eq!(generate_7bit_key(19, 27, Bitboard::new(bits(&[19, 27])), &luts).1, 2);
    assert_eq!(generate_7bit_key(26, 27, Bitboard::new(bits(&[26, 27])), &luts).1, 3);
    // Edge pivots: the off-board neighbours land on the same key bits from either edge.
    assert_eq!(generate_7bit_key(9, 1, Bitboard::new(0x202), &luts), (28, 0));
    assert_eq!(generate_7bit_key(49, 57, Bitboard::new(bits(&[49, 57])), &luts), (28, 2));
    assert_eq!(luts.topology_wall_masks[2], 0b10000011);
    assert_eq!(luts.topology_wall_masks[1], 0b00111000);
    assert_eq!(luts.topology_wall_masks[7], 0b11100011);
}

#[test]
fn frog_hops_along_rays() {
    let ne_from_a1 = Bitboard::new(0x8040201008040200);
    let find = |b: Bitboard| b.0.trailing_zeros();
    assert_eq!(compute_ray_moves::<false, _>(ne_from_a1, Bitboard::new(bits(&[9, 18])), 0, 9, find).0, 1 << 27);
    assert_eq!(compute_ray_moves::<true, _>(ne_from_a1, Bitboard::new(bits(&[9])), 0, 9, find).0, 1 << 18);
    assert_eq!(compute_ray_moves::<false, _>(ne_from_a1, Bitboard::new(bits(&[18])), 0, 9, find).0, 0);
    let full = bits(&[9, 18, 27, 36, 45, 54, 63]);
    assert_eq!(compute_ray_moves::<false, _>(ne_from_a1, Bitboard::new(full), 0, 9, find).0, 0);
    let sw_from_h8 = Bitboard::new(0x0040201008040201);
    assert_eq!(compute_ray_moves::<false, _>(sw_from_h8, Bitboard::new(bits(&[54])), 63, -9, find).0, 1 << 45);
    assert_eq!(
        compute_ray_moves::<false, _>(sw_from_h8, Bitboard::new(bits(&[0, 9, 18, 27, 36, 45, 54])), 63, -9, find).0,
        0
    );
}

#[test]
fn mask_turns_compose_and_undo() {
    assert_eq!(align_relative_mask(0b0011, 3), 0b1001);
    for r in 0..=255u8 {
        for a in 0..4u8 {
            for b in 0..4u8 {
                assert_eq!(align_relative_mask(align_relative_mask(r, a), b), align_relative_mask(r, (a + b) % 4));
            }
            assert_eq!(align_relative_mask(align_relative_mask(r, a), (4 - a) % 4), r & 0x0F);
        }
    }
}
