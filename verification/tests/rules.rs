use core_engine::bitboard::Bitboard;
use core_engine::movegen::generate_piece_moves;
use core_engine::moves::{Move, MoveList, MAX_MOVE_COUNT};
use core_engine::state::{GameState, Player};

fn mv(from: u8, to: u8, flags: u8) -> Move {
    Move::new(from, to, flags)
}

fn moves_of(state: &GameState) -> Vec<Move> {
    state.generate_legal_moves().as_slice().to_vec()
}

#[test]
fn bitboard_queries_and_pops() {
    let b = Bitboard::new(0b1010);
    assert!(b.has_bit(1));
    assert!(!b.has_bit(0));
    assert!(!b.is_empty());
    assert!(Bitboard::new(0).is_empty());
    assert_eq!(Bitboard::from_square(5).0, 32);
    assert_eq!(Bitboard::new(0b1100).least_significant_bit().0, 0b100);
    let mut c = Bitboard::new(0b1100);
    assert_eq!(c.pop_lsb(), 2);
    assert_eq!(c.0, 0b1000);
    assert_eq!(c.pop_lsb(), 3);
    assert!(c.is_empty());
    assert_eq!(Bitboard::new(0xFF).count_ones(), 8);
    assert_eq!(Bitboard::new(u64::MAX).count_ones(), 64);
}

#[test]
fn bitboard_operators() {
    let a = Bitboard::new(0b1100);
    let b = Bitboard::new(0b1010);
    assert_eq!((a & b).0, 0b1000);
    assert_eq!((a | b).0, 0b1110);
    assert_eq!((a ^ b).0, 0b0110);
    assert_eq!((!Bitboard::new(0)).0, u64::MAX);
    assert_eq!((a << 2u8).0, 0b110000);
    assert_eq!((a >> 2u8).0, 0b11);
    assert_eq!(*a, 0b1100);
    let mut c = a;
    c &= b;
    assert_eq!(c.0, 0b1000);
    c |= Bitboard::new(0b1);
    assert_eq!(c.0, 0b1001);
    c ^= Bitboard::new(0b1000);
    assert_eq!(c.0, 0b1);
    c <<= 5u8;
    assert_eq!(c.0, 0b100000);
    c >>= 3u8;
    assert_eq!(c.0, 0b100);
}

#[test]
fn move_packing_round_trips() {
    let m = mv(12, 28, 1);
    assert_eq!(m.from_square(), 12);
    assert_eq!(m.to_square(), 28);
    assert_eq!(m.flags(), 1);
    assert!(m.is_capture());
    let q = mv(63, 0, 0);
    assert_eq!(q.from_square(), 63);
    assert_eq!(q.to_square(), 0);
    assert!(!q.is_capture());
    // Fields are cut to their widths.
    let w = mv(70, 5, 17);
    assert_eq!(w.from_square(), 6);
    assert_eq!(w.flags(), 1);
}

#[test]
fn move_list_holds_at_most_its_capacity() {
    let mut list = MoveList::new();
    assert!(list.is_empty());
    for i in 0..100u32 {
        list.push(mv((i % 64) as u8, ((i * 7) % 64) as u8, 0));
    }
    assert_eq!(list.len(), MAX_MOVE_COUNT);
    assert_eq!(list.get(95), mv((95 % 64) as u8, ((95 * 7) % 64) as u8, 0));
    let collected: Vec<Move> = {
        let mut it = list.into_iter();
        let mut v = Vec::new();
        while let Some(m) = it.next() {
            v.push(m);
        }
        v
    };
    assert_eq!(collected.len(), 96);
    assert_eq!(collected[3], mv(3, 21, 0));
}

#[test]
fn move_to_front_keeps_the_other_order() {
    let mut list = MoveList::new();
    for i in 0..4u8 {
        list.push(mv(i, i + 10, 0));
    }
    list.move_to_front(2);
    let got: Vec<u8> = list.as_slice().iter().map(|m| m.from_square()).collect();
    assert_eq!(got, vec![2, 0, 1, 3]);
    list.move_to_front(0);
    list.move_to_front(9);
    let again: Vec<u8> = list.as_slice().iter().map(|m| m.from_square()).collect();
    assert_eq!(again, vec![2, 0, 1, 3]);
}

#[test]
fn extract_moves_flags_captures() {
    let mut list = MoveList::new();
    Move::extract_moves_from_mask(10, Bitboard::new((1 << 3) | (1 << 20)), Bitboard::new(1 << 20), 0, &mut list);
    assert_eq!(list.as_slice().to_vec(), vec![mv(10, 3, 0), mv(10, 20, 1)]);
}

#[test]
fn two_adjacent_pieces_rotate_around_each_other() {
    // a1 swings around b1 to b2 (90 degrees) and to c1 (180 degrees); b1 swings around a1 to a2.
    let s = GameState::new(0b11, 0, Player::P1);
    assert_eq!(moves_of(&s), vec![mv(0, 2, 0), mv(0, 9, 0), mv(1, 8, 0)]);
    assert!(!s.is_lost());
}

#[test]
fn diagonal_jump_over_an_ally() {
    let s = GameState::new((1 << 0) | (1 << 9), 0, Player::P1);
    assert_eq!(moves_of(&s), vec![mv(0, 18, 0)]);
    let mask = generate_piece_moves(0, Bitboard::new((1 << 0) | (1 << 9)), Bitboard::new(0), false);
    assert_eq!(mask.0, 1 << 18);
}

#[test]
fn diagonal_jump_onto_an_enemy_captures() {
    let mut s = GameState::new((1 << 0) | (1 << 9), 1 << 18, Player::P1);
    let moves = moves_of(&s);
    assert!(moves.contains(&mv(0, 18, 1)));
    s.make_move(mv(0, 18, 1));
    assert_eq!(s.p1_pieces.0, (1 << 9) | (1 << 18));
    assert_eq!(s.p2_pieces.0, 0);
    assert_eq!(s.active_player, Player::P2);
}

#[test]
fn a_lone_piece_has_lost() {
    let s = GameState::new(1, 1 << 63, Player::P1);
    assert!(s.is_lost());
    assert!(s.generate_legal_moves().is_empty());
    let empty = GameState::new(0, 1 << 63, Player::P1);
    assert!(empty.is_lost());
}

#[test]
fn lost_exactly_without_legal_moves() {
    for (p1, p2, player) in [
        (0x0000_0000_0000_ffffu64, 0xffff_0000_0000_0000u64, Player::P1),
        (0x0000_0000_0000_ffffu64, 0xffff_0000_0000_0000u64, Player::P2),
        (1u64, 1u64 << 63, Player::P1),
        (0b11u64, 0u64, Player::P1),
        (0x30400u64, 0x3u64, Player::P2),
        (0x0000_0018_1800_0000u64, 0x0000_2400_0024_0000u64, Player::P1),
    ] {
        let s = GameState::new(p1, p2, player);
        assert_eq!(s.is_lost(), s.generate_legal_moves().is_empty());
    }
}

#[test]
fn unmaking_a_legal_move_restores_the_position() {
    for (p1, p2, player) in [
        (0x0000_0000_0000_ffffu64, 0xffff_0000_0000_0000u64, Player::P1),
        (0x0000_0000_0000_ffffu64, 0xffff_0000_0000_0000u64, Player::P2),
        ((1u64 << 0) | (1 << 9), 1u64 << 18, Player::P1),
        (0x30400u64, 0x3u64, Player::P2),
    ] {
        let s = GameState::new(p1, p2, player);
        for m in moves_of(&s) {
            let mut t = s;
            t.make_move(m);
            assert_ne!(t, s);
            t.unmake_move(m);
            assert_eq!(t, s);
        }
    }
}

#[test]
fn player_pieces_and_turns() {
    let mut s = GameState::new(0xF0, 0x0F00, Player::P2);
    assert_eq!(s.get_player_pieces(Player::P1).0, 0xF0);
    assert_eq!(s.get_player_pieces(Player::P2).0, 0x0F00);
    let (a, e) = s.get_player_pieces_relative();
    assert_eq!((a.0, e.0), (0x0F00, 0xF0));
    assert_eq!(Player::P2.opponent(), Player::P1);
    s.switch_turn();
    assert_eq!(s.active_player, Player::P1);
    assert_eq!(s.p1_pieces.0, 0xF0);
}

#[test]
fn starting_position_moves_are_all_distinct_and_quiet() {
    let s = GameState::new(0x0000_0000_0000_ffff, 0xffff_0000_0000_0000, Player::P1);
    let moves = moves_of(&s);
    assert!(!moves.is_empty());
    for (i, m) in moves.iter().enumerate() {
        assert!(s.p1_pieces.has_bit(m.from_square()));
        assert!(!s.p1_pieces.has_bit(m.to_square()));
        assert!(!m.is_capture());
        for other in moves.iter().skip(i + 1) {
            assert_ne!(m, other);
        }
    }
}

#[test]
fn writes_through_the_mutable_slice_reach_the_list() {
    let mut list = MoveList::new();
    for i in 0..3u8 {
        list.push(mv(i, i + 8, 0));
    }
    {
        let s = list.as_mut_slice();
        assert_eq!(s.len(), 3);
        s.swap(0, 2);
        s[1] = mv(40, 41, 1);
    }
    assert_eq!(list.as_slice().to_vec(), vec![mv(2, 10, 0), mv(40, 41, 1), mv(0, 8, 0)]);
    // The same view through `DerefMut`.
    list[0] = mv(5, 6, 0);
    assert_eq!(list.get(0), mv(5, 6, 0));
    assert_eq!(list.len(), 3);
}

#[test]
fn legal_moves_keep_the_movers_material() {
    for (p1, p2, player) in [
        (0x0000_0000_0000_ffffu64, 0xffff_0000_0000_0000u64, Player::P1),
        ((1u64 << 0) | (1 << 9), 1u64 << 18, Player::P1),
        (0x30400u64, 0x3u64, Player::P2),
        (0x0000_0018_1800_0000u64, 0x0000_2400_0024_0000u64, Player::P1),
    ] {
        let s = GameState::new(p1, p2, player);
        let (allies, enemies) = s.get_player_pieces_relative();
        for m in moves_of(&s) {
            let mut t = s;
            t.make_move(m);
            let (after_allies, after_enemies) = t.get_player_pieces_relative();
            // The side that moved is now the side not to move.
            assert_eq!(after_enemies.count_ones(), allies.count_ones());
            let lost = if m.is_capture() { 1 } else { 0 };
            assert_eq!(after_allies.count_ones() + lost, enemies.count_ones());
            assert!(after_enemies.has_bit(m.to_square()));
            assert!(!after_enemies.has_bit(m.from_square()));
        }
    }
}

#[test]
fn boards_draw_as_text() {
    let b = Bitboard::new((1 << 0) | (1 << 63));
    let expected = "Bitboard(0x8000000000000001):\n 8 | . . . . . . . 1\n 7 | . . . . . . . .\n 6 | . . . . . . . .\n 5 | . . . . . . . .\n 4 | . . . . . . . .\n 3 | . . . . . . . .\n 2 | . . . . . . . .\n 1 | 1 . . . . . . .\n     -----------------\n       A B C D E F G H\n";
    assert_eq!(b.display_text(), expected);
    let s = GameState::new(0x0000_0000_0000_00ff, 0xff00_0000_0000_0000, Player::P2);
    let text = s.display_text();
    assert!(text.starts_with("GameState {\n  Active Player: P2\n  Board Topology:\n    8 | 2 2 2 2 2 2 2 2\n"));
    assert!(text.contains("    1 | 1 1 1 1 1 1 1 1\n      -----------------\n        A B C D E F G H\n"));
    assert!(text.ends_with("  P1 Raw: 0x00000000000000FF\n  P2 Raw: 0xFF00000000000000\n}"));
}
