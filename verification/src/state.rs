use vstd::prelude::*;
use crate::bitboard::{group_bits, bit_set, lowest_bit, Bitboard, lemma_clear_lowest, lemma_lowest_bit,
    lemma_bits_ext, squares, popcount, lemma_popcount_remove, lemma_popcount_insert, lemma_clear_absent};
use crate::moves::{Move, MoveList, capped, mask_moves, lemma_capped_append, MAX_MOVE_COUNT, flag_for,
    lemma_mask_moves_members};
use crate::movegen::{generate_piece_moves, move_mask, is_move_mask, piece_target, lemma_move_mask};
use vstd::string::StringExecFns;
use crate::text::{hex16, board_rows, mark_texts, push_hex16, push_board_rows};

verus! {

broadcast use group_bits;

/// One of the two sides.
#[derive(Clone, Copy, PartialEq, Eq, Structural, Debug, Hash)]
pub enum Player {
    P1,
    P2,
}

impl Player {
    /// The other side.
    pub open spec fn spec_opponent(self) -> Player {
        match self {
            Player::P1 => Player::P2,
            Player::P2 => Player::P1,
        }
    }

    /// Returns the opposing player.
    pub fn opponent(self) -> (r: Self)
        ensures
            r == self.spec_opponent(),
    {
        match self {
            Player::P1 => Player::P2,
            Player::P2 => Player::P1,
        }
    }
}

/// A position: the pieces of each side and the side to move.
#[derive(Clone, Copy, PartialEq, Eq, Structural, Debug, Hash)]
pub struct GameState {
    pub p1_pieces: Bitboard,
    pub p2_pieces: Bitboard,
    pub active_player: Player,
}

/// The pieces of the side to move.
pub open spec fn allies_of(s: GameState) -> u64 {
    match s.active_player {
        Player::P1 => s.p1_pieces.0,
        Player::P2 => s.p2_pieces.0,
    }
}

/// The pieces of the side not to move.
pub open spec fn enemies_of(s: GameState) -> u64 {
    match s.active_player {
        Player::P1 => s.p2_pieces.0,
        Player::P2 => s.p1_pieces.0,
    }
}

/// No square holds pieces of both sides.
pub open spec fn disjoint(s: GameState) -> bool {
    s.p1_pieces.0 & s.p2_pieces.0 == 0
}

/// The moves of every piece of `movers`, lowest origin first, each piece's moves lowest
/// destination first.
pub open spec fn pieces_moves(movers: u64, allies: u64, enemies: u64) -> Seq<Move>
    decreases movers,
{
    if movers == 0 {
        Seq::empty()
    } else {
        let from = lowest_bit(movers);
        proof {
            lemma_clear_lowest(movers);
        }
        mask_moves(from as u8, move_mask(allies, enemies, from as int, false), enemies)
            + pieces_moves(movers & ((movers - 1) as u64), allies, enemies)
    }
}

/// Every move of the side to move, in generation order.
pub open spec fn legal_moves(s: GameState) -> Seq<Move> {
    pieces_moves(allies_of(s), allies_of(s), enemies_of(s))
}

/// The move is legal in the position: it moves a piece of the side to move onto a square of
/// that piece's move mask, and carries the capture flag exactly when it lands on an enemy piece.
pub open spec fn is_legal_move(s: GameState, m: Move) -> bool {
    &&& bit_set(allies_of(s), m.from_sq() as u64)
    &&& piece_target(allies_of(s), enemies_of(s), m.from_sq() as int, m.to_sq() as int, false)
    &&& m.flag_bits() == if bit_set(enemies_of(s), m.to_sq() as u64) {
        Move::CAPTURE_FLAG
    } else {
        0u8
    }
}

/// The side to move has no legal move (which includes having no piece left).
pub open spec fn spec_is_lost(s: GameState) -> bool {
    forall|from: u64, to: u64|
        from < 64 && to < 64 ==> !(bit_set(allies_of(s), from) && piece_target(
            allies_of(s),
            enemies_of(s),
            from as int,
            to as int,
            false,
        ))
}

/// The position after the side to move plays `m`: its piece leaves the origin and lands on the
/// destination, any enemy piece there is removed, and the turn passes.
pub open spec fn spec_make_move(s: GameState, m: Move) -> GameState {
    let from = 1u64 << m.from_sq();
    let to = 1u64 << m.to_sq();
    match s.active_player {
        Player::P1 => GameState {
            p1_pieces: Bitboard((s.p1_pieces.0 & !from) | to),
            p2_pieces: Bitboard(s.p2_pieces.0 & !to),
            active_player: Player::P2,
        },
        Player::P2 => GameState {
            p1_pieces: Bitboard(s.p1_pieces.0 & !to),
            p2_pieces: Bitboard((s.p2_pieces.0 & !from) | to),
            active_player: Player::P1,
        },
    }
}

/// The position before the side that just moved played `m`: the turn passes back, its piece
/// returns from the destination to the origin, and a captured piece is put back.
pub open spec fn spec_unmake_move(s: GameState, m: Move) -> GameState {
    let from = 1u64 << m.from_sq();
    let to = 1u64 << m.to_sq();
    match s.active_player.spec_opponent() {
        Player::P1 => GameState {
            p1_pieces: Bitboard((s.p1_pieces.0 | from) & !to),
            p2_pieces: Bitboard(
                if m.spec_is_capture() {
                    s.p2_pieces.0 | to
                } else {
                    s.p2_pieces.0
                },
            ),
            active_player: Player::P1,
        },
        Player::P2 => GameState {
            p1_pieces: Bitboard(
                if m.spec_is_capture() {
                    s.p1_pieces.0 | to
                } else {
                    s.p1_pieces.0
                },
            ),
            p2_pieces: Bitboard((s.p2_pieces.0 | from) & !to),
            active_player: Player::P2,
        },
    }
}

/// The name of a side, as it is written out.
pub open spec fn player_name(p: Player) -> Seq<char> {
    match p {
        Player::P1 => "P1"@,
        Player::P2 => "P2"@,
    }
}

/// The marks of the squares of a position: ` 1` for a piece of the first side, ` 2` for one of
/// the second, ` .` for an empty square.
pub open spec fn state_marks(s: GameState) -> Seq<Seq<char>> {
    Seq::new(
        64,
        |i: int|
            if bit_set(s.p1_pieces.0, i as u64) {
                " 1"@
            } else if bit_set(s.p2_pieces.0, i as u64) {
                " 2"@
            } else {
                " ."@
            },
    )
}

/// The drawing of a position.
pub open spec fn game_state_text(s: GameState) -> Seq<char> {
    "GameState {\n"@ + "  Active Player: "@ + player_name(s.active_player) + "\n"@ + "  Board Topology:\n"@
        + board_rows("    "@, state_marks(s), 8) + "      -----------------\n"@
        + "        A B C D E F G H\n"@ + "  P1 Raw: 0x"@ + hex16(s.p1_pieces.0) + "\n"@ + "  P2 Raw: 0x"@
        + hex16(s.p2_pieces.0) + "\n"@ + "}"@
}

impl GameState {
    /// A position with the given piece words and side to move.
    pub fn new(p1_start: u64, p2_start: u64, starting_player: Player) -> (r: Self)
        ensures
            r.p1_pieces.0 == p1_start,
            r.p2_pieces.0 == p2_start,
            r.active_player == starting_player,
    {
        GameState {
            p1_pieces: Bitboard::new(p1_start),
            p2_pieces: Bitboard::new(p2_start),
            active_player: starting_player,
        }
    }

    /// The pieces of the given side.
    pub fn get_player_pieces(&self, player: Player) -> (r: Bitboard)
        ensures
            r == (match player {
                Player::P1 => self.p1_pieces,
                Player::P2 => self.p2_pieces,
            }),
    {
        match player {
            Player::P1 => self.p1_pieces,
            Player::P2 => self.p2_pieces,
        }
    }

    /// The pieces of the side to move, then those of the other side.
    pub fn get_player_pieces_relative(&self) -> (r: (Bitboard, Bitboard))
        ensures
            r.0.0 == allies_of(*self),
            r.1.0 == enemies_of(*self),
    {
        match self.active_player {
            Player::P1 => (self.p1_pieces, self.p2_pieces),
            Player::P2 => (self.p2_pieces, self.p1_pieces),
        }
    }

    /// Whether the side to move has lost: it has no legal move (in particular no piece).
    #[verifier::spinoff_prover]
    #[verifier::rlimit(40)]
    pub fn is_lost(&self) -> (r: bool)
        ensures
            r == spec_is_lost(*self),
    {
        let (allied_pieces, enemy_pieces) = self.get_player_pieces_relative();
        if allied_pieces.is_empty() {
            proof {
                assert forall|from: u64, to: u64| from < 64 && to < 64 implies !(bit_set(
                    allies_of(*self),
                    from,
                ) && piece_target(allies_of(*self), enemies_of(*self), from as int, to as int, false)) by {}
            }
            return true;
        }
        let mut pieces_to_scan = allied_pieces;
        while !pieces_to_scan.is_empty()
            invariant
                allied_pieces.0 == allies_of(*self),
                enemy_pieces.0 == enemies_of(*self),
                forall|i: u64| i < 64 && bit_set(pieces_to_scan.0, i) ==> bit_set(allied_pieces.0, i),
                forall|from: u64, to: u64|
                    from < 64 && to < 64 && bit_set(allied_pieces.0, from) && !bit_set(
                        pieces_to_scan.0,
                        from,
                    ) ==> !piece_target(allied_pieces.0, enemy_pieces.0, from as int, to as int, false),
            decreases pieces_to_scan.0,
        {
            let ghost before = pieces_to_scan.0;
            let piece_idx = pieces_to_scan.pop_lsb();
            let legal_moves = generate_piece_moves(piece_idx, allied_pieces, enemy_pieces, false);
            if !legal_moves.is_empty() {
                proof {
                    lemma_lowest_bit(legal_moves.0);
                    let to = lowest_bit(legal_moves.0);
                    assert(piece_target(allied_pieces.0, enemy_pieces.0, piece_idx as int, to as int, false));
                    assert(bit_set(allies_of(*self), piece_idx as u64));
                    let from = piece_idx as u64;
                    assert(from < 64 && to < 64 && bit_set(allies_of(*self), from) && piece_target(
                        allies_of(*self),
                        enemies_of(*self),
                        from as int,
                        to as int,
                        false,
                    ));
                }
                return false;
            }
            proof {
                assert forall|to: u64| to < 64 implies !piece_target(
                    allied_pieces.0,
                    enemy_pieces.0,
                    piece_idx as int,
                    to as int,
                    false,
                ) by {
                    assert(!bit_set(legal_moves.0, to));
                }
            }
        }
        true
    }

    /// Every legal move of the side to move, lowest origin first and, per piece, lowest
    /// destination first; a move landing on an enemy piece carries the capture flag. The list
    /// keeps the first `MAX_MOVE_COUNT` moves.
    #[verifier::spinoff_prover]
    #[verifier::rlimit(40)]
    pub fn generate_legal_moves(&self) -> (r: MoveList)
        ensures
            r@ == capped(legal_moves(*self)),
    {
        let mut move_list = MoveList::new();
        let (allied_pieces, enemy_pieces) = self.get_player_pieces_relative();
        let mut moving_pieces = allied_pieces;
        proof {
            assert(Seq::<Move>::empty() + legal_moves(*self) =~= legal_moves(*self));
        }
        while !moving_pieces.is_empty()
            invariant
                allied_pieces.0 == allies_of(*self),
                enemy_pieces.0 == enemies_of(*self),
                capped(move_list@ + pieces_moves(moving_pieces.0, allied_pieces.0, enemy_pieces.0))
                    == capped(legal_moves(*self)),
                move_list@.len() <= MAX_MOVE_COUNT,
            decreases moving_pieces.0,
        {
            let ghost cur = moving_pieces.0;
            let ghost before = move_list@;
            let piece_idx = moving_pieces.pop_lsb();
            let move_mask = generate_piece_moves(piece_idx, allied_pieces, enemy_pieces, false);
            Move::extract_moves_from_mask(piece_idx, move_mask, enemy_pieces, 0, &mut move_list);
            proof {
                let part = mask_moves(piece_idx, move_mask.0, enemy_pieces.0);
                let rest = pieces_moves(moving_pieces.0, allied_pieces.0, enemy_pieces.0);
                assert(pieces_moves(cur, allied_pieces.0, enemy_pieces.0) == part + rest);
                lemma_capped_append(before + part, rest);
                assert(before + part + rest =~= before + (part + rest));
            }
        }
        proof {
            assert(move_list@ + pieces_moves(0, allies_of(*self), enemies_of(*self)) =~= move_list@);
        }
        move_list
    }

    /// Plays `m` for the side to move and passes the turn.
    pub fn make_move(&mut self, current_move: Move)
        ensures
            *final(self) == spec_make_move(*old(self), current_move),
    {
        let from_mask = Bitboard::from_square(current_move.from_square());
        let to_mask = Bitboard::from_square(current_move.to_square());
        match self.active_player {
            Player::P1 => {
                self.p1_pieces = Bitboard(self.p1_pieces.0 & !from_mask.0);
                self.p1_pieces = Bitboard(self.p1_pieces.0 | to_mask.0);
                self.p2_pieces = Bitboard(self.p2_pieces.0 & !to_mask.0);
                self.active_player = Player::P2;
            },
            Player::P2 => {
                self.p2_pieces = Bitboard(self.p2_pieces.0 & !from_mask.0);
                self.p2_pieces = Bitboard(self.p2_pieces.0 | to_mask.0);
                self.p1_pieces = Bitboard(self.p1_pieces.0 & !to_mask.0);
                self.active_player = Player::P1;
            },
        }
    }

    /// Takes back `m`, the move the side not to move just played, restoring a captured piece.
    pub fn unmake_move(&mut self, historical_move: Move)
        ensures
            *final(self) == spec_unmake_move(*old(self), historical_move),
    {
        self.active_player = self.active_player.opponent();
        let from_mask = Bitboard::from_square(historical_move.from_square());
        let to_mask = Bitboard::from_square(historical_move.to_square());
        match self.active_player {
            Player::P1 => {
                self.p1_pieces = Bitboard(self.p1_pieces.0 | from_mask.0);
                self.p1_pieces = Bitboard(self.p1_pieces.0 & !to_mask.0);
                if historical_move.is_capture() {
                    self.p2_pieces = Bitboard(self.p2_pieces.0 | to_mask.0);
                }
            },
            Player::P2 => {
                self.p2_pieces = Bitboard(self.p2_pieces.0 | from_mask.0);
                self.p2_pieces = Bitboard(self.p2_pieces.0 & !to_mask.0);
                if historical_move.is_capture() {
                    self.p1_pieces = Bitboard(self.p1_pieces.0 | to_mask.0);
                }
            },
        }
    }

    /// The position drawn as text: the side to move, one line per rank from rank 8 down with
    /// `1` for a piece of the first side, `2` for one of the second and `.` for an empty
    /// square, the file letters, and both piece words in hexadecimal.
    pub fn display_text(&self) -> (r: String)
        ensures
            r@ == game_state_text(*self),
    {
        let mut marks: Vec<&str> = Vec::new();
        let mut i: u8 = 0;
        while i < 64
            invariant
                i <= 64,
                marks@.len() == i,
                mark_texts(marks@) == state_marks(*self).take(i as int),
            decreases 64 - i,
        {
            let ghost before = marks@;
            if self.p1_pieces.has_bit(i) {
                marks.push(" 1");
            } else if self.p2_pieces.has_bit(i) {
                marks.push(" 2");
            } else {
                marks.push(" .");
            }
            assert(mark_texts(marks@) =~= mark_texts(before).push(state_marks(*self)[i as int]));
            assert(state_marks(*self).take(i + 1) =~= state_marks(*self).take(i as int).push(
                state_marks(*self)[i as int],
            ));
            i = i + 1;
        }
        assert(state_marks(*self).take(64) =~= state_marks(*self));
        let mut text = String::from_str("GameState {\n");
        text.append("  Active Player: ");
        match self.active_player {
            Player::P1 => text.append("P1"),
            Player::P2 => text.append("P2"),
        }
        text.append("\n");
        text.append("  Board Topology:\n");
        push_board_rows(&mut text, "    ", &marks);
        text.append("      -----------------\n");
        text.append("        A B C D E F G H\n");
        text.append("  P1 Raw: 0x");
        push_hex16(&mut text, self.p1_pieces.0);
        text.append("\n");
        text.append("  P2 Raw: 0x");
        push_hex16(&mut text, self.p2_pieces.0);
        text.append("\n");
        text.append("}");
        text
    }

    /// Passes the turn to the other side.
    pub fn switch_turn(&mut self)
        ensures
            final(self).p1_pieces == old(self).p1_pieces,
            final(self).p2_pieces == old(self).p2_pieces,
            final(self).active_player == old(self).active_player.spec_opponent(),
    {
        self.active_player = self.active_player.opponent();
    }
}

// ============================================================================
// LAWS
// ============================================================================

/// Each move of `pieces_moves` starts on a square of `movers` and lands on a square of that
/// piece's move mask with the matching flag; each such origin/destination pair is listed.
#[verifier::spinoff_prover]
#[verifier::rlimit(40)]
pub proof fn lemma_pieces_moves_members(movers: u64, allies: u64, enemies: u64)
    ensures
        forall|i: int|
            0 <= i < pieces_moves(movers, allies, enemies).len() ==> {
                let m = #[trigger] pieces_moves(movers, allies, enemies)[i];
                &&& m.from_sq() < 64
                &&& m.to_sq() < 64
                &&& bit_set(movers, m.from_sq() as u64)
                &&& bit_set(move_mask(allies, enemies, m.from_sq() as int, false), m.to_sq() as u64)
                &&& m == Move::spec_new(m.from_sq(), m.to_sq(), flag_for(enemies, m.to_sq() as u64))
            },
        forall|f: u64, t: u64|
            f < 64 && t < 64 && bit_set(movers, f) && bit_set(move_mask(allies, enemies, f as int, false), t)
                ==> #[trigger] pieces_moves(movers, allies, enemies).contains(
                Move::spec_new(f as u8, t as u8, flag_for(enemies, t)),
            ),
    decreases movers,
{
    broadcast use Move::lemma_spec_new_fields;

    if movers != 0 {
        lemma_clear_lowest(movers);
        lemma_lowest_bit(movers);
        let rest = movers & ((movers - 1) as u64);
        let from = lowest_bit(movers);
        lemma_pieces_moves_members(rest, allies, enemies);
        let mm = move_mask(allies, enemies, from as int, false);
        lemma_mask_moves_members(from as u8, mm, enemies);
        let head = mask_moves(from as u8, mm, enemies);
        let tail = pieces_moves(rest, allies, enemies);
        let whole = pieces_moves(movers, allies, enemies);
        assert(whole == head + tail);
        assert forall|i: int| 0 <= i < whole.len() implies {
            let m = #[trigger] whole[i];
            &&& m.from_sq() < 64
            &&& m.to_sq() < 64
            &&& bit_set(movers, m.from_sq() as u64)
            &&& bit_set(move_mask(allies, enemies, m.from_sq() as int, false), m.to_sq() as u64)
            &&& m == Move::spec_new(m.from_sq(), m.to_sq(), flag_for(enemies, m.to_sq() as u64))
        } by {
            if i < head.len() {
                assert(whole[i] == head[i]);
                let m = head[i];
                assert(m == Move::spec_new(from as u8, m.to_sq(), flag_for(enemies, m.to_sq() as u64)));
                assert(m.from_sq() == from);
            } else {
                assert(whole[i] == tail[i - head.len()]);
            }
        }
        assert forall|f: u64, t: u64|
            f < 64 && t < 64 && bit_set(movers, f) && bit_set(move_mask(allies, enemies, f as int, false), t)
                implies #[trigger] whole.contains(Move::spec_new(f as u8, t as u8, flag_for(enemies, t))) by {
            let target = Move::spec_new(f as u8, t as u8, flag_for(enemies, t));
            if f == from {
                assert(head.contains(target));
                let k = choose|k: int| 0 <= k < head.len() && head[k] == target;
                assert(whole[k] == target);
            } else {
                assert(bit_set(rest, f));
                assert(tail.contains(target));
                let k = choose|k: int| 0 <= k < tail.len() && tail[k] == target;
                assert(whole[k + head.len()] == target);
            }
        }
    }
}

/// No move of `mask_moves` appears twice: each goes to its own square.
proof fn lemma_mask_moves_distinct(from: u8, mask: u64, enemy: u64)
    requires
        from < 64,
    ensures
        mask_moves(from, mask, enemy).no_duplicates(),
    decreases mask,
{
    broadcast use Move::lemma_spec_new_fields;

    if mask != 0 {
        lemma_clear_lowest(mask);
        lemma_lowest_bit(mask);
        let rest = mask & ((mask - 1) as u64);
        let low = lowest_bit(mask);
        lemma_mask_moves_distinct(from, rest, enemy);
        lemma_mask_moves_members(from, rest, enemy);
        let head = Move::spec_new(from, low as u8, flag_for(enemy, low));
        let tail = mask_moves(from, rest, enemy);
        let whole = mask_moves(from, mask, enemy);
        assert(whole == seq![head] + tail);
        assert forall|i: int, j: int| 0 <= i < whole.len() && 0 <= j < whole.len() && i != j implies whole[i]
            != whole[j] by {
            if i == 0 {
                assert(whole[j] == tail[j - 1]);
                assert(bit_set(rest, tail[j - 1].to_sq() as u64));
            } else if j == 0 {
                assert(whole[i] == tail[i - 1]);
                assert(bit_set(rest, tail[i - 1].to_sq() as u64));
            } else {
                assert(whole[i] == tail[i - 1] && whole[j] == tail[j - 1]);
            }
        }
    }
}

/// No move of `pieces_moves` appears twice: the moves of one piece go to distinct squares,
/// and moves of different pieces start on different squares.
proof fn lemma_pieces_moves_distinct(movers: u64, allies: u64, enemies: u64)
    ensures
        pieces_moves(movers, allies, enemies).no_duplicates(),
    decreases movers,
{
    if movers != 0 {
        lemma_clear_lowest(movers);
        lemma_lowest_bit(movers);
        let rest = movers & ((movers - 1) as u64);
        let from = lowest_bit(movers);
        lemma_pieces_moves_distinct(rest, allies, enemies);
        let mm = move_mask(allies, enemies, from as int, false);
        lemma_mask_moves_distinct(from as u8, mm, enemies);
        let head = mask_moves(from as u8, mm, enemies);
        let tail = pieces_moves(rest, allies, enemies);
        assert forall|k: int| 0 <= k < head.len() implies #[trigger] head[k].from_sq() == from by {
            lemma_mask_moves_members(from as u8, mm, enemies);
            Move::lemma_spec_new_fields(from as u8, head[k].to_sq(), flag_for(enemies, head[k].to_sq() as u64));
        }
        assert forall|k: int| 0 <= k < tail.len() implies #[trigger] tail[k].from_sq() != from by {
            lemma_pieces_moves_members(rest, allies, enemies);
            assert(bit_set(rest, tail[k].from_sq() as u64));
        }
        let whole = pieces_moves(movers, allies, enemies);
        assert(whole == head + tail);
        assert forall|i: int, j: int| 0 <= i < whole.len() && 0 <= j < whole.len() && i != j implies whole[i]
            != whole[j] by {
            if i < head.len() && j < head.len() {
                assert(whole[i] == head[i] && whole[j] == head[j]);
            } else if i >= head.len() && j >= head.len() {
                assert(whole[i] == tail[i - head.len()] && whole[j] == tail[j - head.len()]);
            } else if i < head.len() {
                assert(whole[i] == head[i] && whole[j] == tail[j - head.len()]);
                assert(head[i].from_sq() != tail[j - head.len()].from_sq());
            } else {
                assert(whole[i] == tail[i - head.len()] && whole[j] == head[j]);
                assert(head[j].from_sq() != tail[i - head.len()].from_sq());
            }
        }
    }
}

/// The legal moves of a position are listed once each, also after cutting the list to the
/// capacity of a `MoveList`.
pub proof fn lemma_legal_moves_distinct(s: GameState)
    ensures
        legal_moves(s).no_duplicates(),
        capped(legal_moves(s)).no_duplicates(),
{
    lemma_pieces_moves_distinct(allies_of(s), allies_of(s), enemies_of(s));
    let l = legal_moves(s);
    assert forall|i: int, j: int| 0 <= i < capped(l).len() && 0 <= j < capped(l).len() && i != j implies capped(
        l,
    )[i] != capped(l)[j] by {
        assert(capped(l)[i] == l[i] && capped(l)[j] == l[j]);
    }
}

/// Every listed move is legal, and every legal move is listed.
#[verifier::spinoff_prover]
#[verifier::rlimit(40)]
pub proof fn lemma_legal_moves_exact(s: GameState)
    ensures
        forall|i: int| 0 <= i < legal_moves(s).len() ==> is_legal_move(s, #[trigger] legal_moves(s)[i]),
        forall|m: Move| is_legal_move(s, m) ==> #[trigger] legal_moves(s).contains(m),
{
    broadcast use Move::lemma_spec_new_fields, Move::lemma_fields_determine, Move::lemma_field_ranges;

    let a = allies_of(s);
    let e = enemies_of(s);
    lemma_pieces_moves_members(a, a, e);
    assert forall|i: int| 0 <= i < legal_moves(s).len() implies is_legal_move(s, #[trigger] legal_moves(s)[i]) by {
        let m = legal_moves(s)[i];
        lemma_move_mask(a, e, m.from_sq() as int, false);
    }
    assert forall|m: Move| is_legal_move(s, m) implies #[trigger] legal_moves(s).contains(m) by {
        let f = m.from_sq() as u64;
        let t = m.to_sq() as u64;
        lemma_move_mask(a, e, f as int, false);
        assert(bit_set(move_mask(a, e, f as int, false), t));
        assert(Move::spec_new(f as u8, t as u8, flag_for(e, t)) == m);
    }
}

/// The side to move has lost exactly when it has no legal move.
#[verifier::spinoff_prover]
#[verifier::rlimit(40)]
pub proof fn lemma_lost_iff_no_moves(s: GameState)
    ensures
        spec_is_lost(s) <==> legal_moves(s).len() == 0,
{
    broadcast use Move::lemma_spec_new_fields, Move::lemma_fields_determine, Move::lemma_field_ranges;

    lemma_legal_moves_exact(s);
    if legal_moves(s).len() > 0 {
        let m = legal_moves(s)[0];
        assert(is_legal_move(s, m));
        let from = m.from_sq() as u64;
        let to = m.to_sq() as u64;
        assert(from < 64 && to < 64);
        assert(!spec_is_lost(s));
    } else {
        assert forall|from: u64, to: u64| from < 64 && to < 64 implies !(bit_set(allies_of(s), from)
            && piece_target(allies_of(s), enemies_of(s), from as int, to as int, false)) by {
            if bit_set(allies_of(s), from) && piece_target(allies_of(s), enemies_of(s), from as int, to as int, false) {
                let m = Move::spec_new(from as u8, to as u8, flag_for(enemies_of(s), to));
                assert(is_legal_move(s, m));
                assert(legal_moves(s).contains(m));
            }
        }
    }
}

/// Taking back a move restores the position it was played from, provided the move takes a
/// piece of the side to move onto a square without an allied piece and its capture flag tells
/// whether an enemy piece stood there.
pub proof fn lemma_unmake_undoes_make(s: GameState, m: Move)
    requires
        bit_set(allies_of(s), m.from_sq() as u64),
        !bit_set(allies_of(s), m.to_sq() as u64),
        m.spec_is_capture() == bit_set(enemies_of(s), m.to_sq() as u64),
    ensures
        spec_unmake_move(spec_make_move(s, m), m) == s,
{
    broadcast use Move::lemma_field_ranges;

    let after = spec_unmake_move(spec_make_move(s, m), m);
    let f = m.from_sq() as u64;
    let t = m.to_sq() as u64;
    assert forall|i: u64| i < 64 implies bit_set(after.p1_pieces.0, i) == bit_set(s.p1_pieces.0, i)
        && bit_set(after.p2_pieces.0, i) == bit_set(s.p2_pieces.0, i) by {}
    lemma_bits_ext(after.p1_pieces.0, s.p1_pieces.0);
    lemma_bits_ext(after.p2_pieces.0, s.p2_pieces.0);
}

/// Every legal move is taken back exactly by `unmake_move`.
pub proof fn lemma_legal_move_undo(s: GameState, m: Move)
    requires
        is_legal_move(s, m),
    ensures
        spec_unmake_move(spec_make_move(s, m), m) == s,
{
    assert((1u8 & 1u8) != 0u8 && (0u8 & 1u8) == 0u8) by (bit_vector);
    lemma_unmake_undoes_make(s, m);
}

/// Playing any move keeps the two sides on distinct squares.
pub proof fn lemma_make_move_keeps_disjoint(s: GameState, m: Move)
    requires
        disjoint(s),
    ensures
        disjoint(spec_make_move(s, m)),
{
    broadcast use Move::lemma_field_ranges;

    let n = spec_make_move(s, m);
    assert forall|i: u64| i < 64 implies !bit_set(n.p1_pieces.0 & n.p2_pieces.0, i) by {
        assert(!bit_set(s.p1_pieces.0 & s.p2_pieces.0, i));
    }
    crate::bitboard::lemma_no_bits_zero(n.p1_pieces.0 & n.p2_pieces.0);
}

/// A legal move relocates one piece of the side to move from the origin to the destination and
/// removes the enemy piece standing there, if any: the mover keeps its number of pieces, and the
/// other side loses one piece exactly when the move is a capture.
pub proof fn lemma_legal_move_material(s: GameState, m: Move)
    requires
        is_legal_move(s, m),
    ensures
        squares(enemies_of(spec_make_move(s, m))) == squares(allies_of(s)).remove(
            m.from_sq() as int,
        ).insert(m.to_sq() as int),
        squares(allies_of(spec_make_move(s, m))) == squares(enemies_of(s)).remove(m.to_sq() as int),
        popcount(enemies_of(spec_make_move(s, m))) == popcount(allies_of(s)),
        popcount(allies_of(spec_make_move(s, m))) + (if m.spec_is_capture() {
            1int
        } else {
            0int
        }) == popcount(enemies_of(s)),
{
    broadcast use group_bits, Move::lemma_field_ranges;

    let n = spec_make_move(s, m);
    let a = allies_of(s);
    let e = enemies_of(s);
    let f = m.from_sq() as u64;
    let t = m.to_sq() as u64;
    let fb = 1u64 << f;
    let tb = 1u64 << t;
    assert(enemies_of(n) == (a & !fb) | tb);
    assert(allies_of(n) == e & !tb);
    assert(squares(enemies_of(n)) =~= squares(a).remove(f as int).insert(t as int));
    assert(squares(allies_of(n)) =~= squares(e).remove(t as int));
    lemma_popcount_remove(a, f);
    assert(!bit_set(a & !fb, t));
    lemma_popcount_insert(a & !fb, t);
    assert((1u8 & 1u8) != 0u8 && (0u8 & 1u8) == 0u8) by (bit_vector);
    if bit_set(e, t) {
        lemma_popcount_remove(e, t);
    } else {
        lemma_clear_absent(e, t);
    }
}

/// The opponent of the opponent is the player itself.
pub proof fn lemma_opponent_involutive(p: Player)
    ensures
        p.spec_opponent().spec_opponent() == p,
        p.spec_opponent() != p,
{
}

} // verus!
