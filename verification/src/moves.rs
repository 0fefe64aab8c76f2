use vstd::prelude::*;
use crate::bitboard::{group_bits, bit_set, lowest_bit, Bitboard, lemma_clear_lowest, lemma_lowest_bit};

verus! {

broadcast use group_bits;

/// Upper bound on the number of moves a `MoveList` stores.
pub const MAX_MOVE_COUNT: usize = 96;

/// A move packed into 16 bits: origin square in bits 0..6, destination square in bits 6..12,
/// flags in bits 12..16.
#[derive(Clone, Copy, PartialEq, Eq, Structural, Debug, Hash)]
pub struct Move {
    payload: u16,
}

/// The packed word of a move with the given fields (each field is cut to its width).
pub open spec fn pack(from: u8, to: u8, flags: u8) -> u16 {
    ((from as u16) & 0x003Fu16) | (((to as u16) << 6u16) & 0x0FC0u16) | (((flags as u16) << 12u16)
        & 0xF000u16)
}

proof fn lemma_pack_fields(from: u8, to: u8, flags: u8)
    by (bit_vector)
    ensures
        (pack(from, to, flags) & 0x003Fu16) as u8 == from % 64,
        ((pack(from, to, flags) & 0x0FC0u16) >> 6u16) as u8 == to % 64,
        ((pack(from, to, flags) & 0xF000u16) >> 12u16) as u8 == flags % 16,
{
}

proof fn lemma_pack_unique(p: u16)
    by (bit_vector)
    ensures
        p == ((((p & 0x003Fu16) as u8) as u16) & 0x003Fu16) | (((((p & 0x0FC0u16) >> 6u16) as u8)
            as u16) << 6u16 & 0x0FC0u16) | (((((p & 0xF000u16) >> 12u16) as u8) as u16) << 12u16
            & 0xF000u16),
{
}

impl Move {
    /// Flag bit marking a move that lands on an enemy piece.
    pub const CAPTURE_FLAG: u8 = 0x1;

    /// The move with the given fields.
    pub closed spec fn spec_new(from: u8, to: u8, flags: u8) -> Move {
        Move { payload: pack(from, to, flags) }
    }

    /// Origin square of the move.
    pub closed spec fn from_sq(self) -> u8 {
        (self.payload & 0x003Fu16) as u8
    }

    /// Destination square of the move.
    pub closed spec fn to_sq(self) -> u8 {
        ((self.payload & 0x0FC0u16) >> 6u16) as u8
    }

    /// Flag nibble of the move.
    pub closed spec fn flag_bits(self) -> u8 {
        ((self.payload & 0xF000u16) >> 12u16) as u8
    }

    /// Whether the move carries the capture flag.
    pub open spec fn spec_is_capture(self) -> bool {
        self.flag_bits() & 1u8 != 0u8
    }

    /// Reading back the fields of a built move gives the fields, cut to their widths.
    pub broadcast proof fn lemma_spec_new_fields(from: u8, to: u8, flags: u8)
        ensures
            #![trigger Move::spec_new(from, to, flags)]
            Move::spec_new(from, to, flags).from_sq() == from % 64,
            Move::spec_new(from, to, flags).to_sq() == to % 64,
            Move::spec_new(from, to, flags).flag_bits() == flags % 16,
    {
        lemma_pack_fields(from, to, flags);
    }

    /// Every move is the move built from its own fields, so moves with equal fields are equal.
    pub broadcast proof fn lemma_fields_determine(m: Move)
        ensures
            #[trigger] Move::spec_new(m.from_sq(), m.to_sq(), m.flag_bits()) == m,
            m.from_sq() < 64,
            m.to_sq() < 64,
            m.flag_bits() < 16,
    {
        let p = m.payload;
        lemma_pack_unique(p);
        assert(((p & 0x003Fu16) as u8) < 64 && (((p & 0x0FC0u16) >> 6u16) as u8) < 64 && ((((p
            & 0xF000u16) >> 12u16)) as u8) < 16) by (bit_vector);
    }

    /// The fields of a move fit their widths.
    pub broadcast proof fn lemma_field_ranges(m: Move)
        ensures
            #![trigger m.from_sq()]
            #![trigger m.to_sq()]
            #![trigger m.flag_bits()]
            m.from_sq() < 64,
            m.to_sq() < 64,
            m.flag_bits() < 16,
    {
        Move::lemma_fields_determine(m);
    }

    /// Whether the move carries the capture flag.
    pub fn is_capture(&self) -> (r: bool)
        ensures
            r == self.spec_is_capture(),
    {
        (self.flags() & Self::CAPTURE_FLAG) != 0
    }

    /// Packs a move; each field is cut to its width (6, 6 and 4 bits).
    pub fn new(from: u8, to: u8, flags: u8) -> (r: Self)
        ensures
            r == Move::spec_new(from, to, flags),
            r.from_sq() == from % 64,
            r.to_sq() == to % 64,
            r.flag_bits() == flags % 16,
    {
        proof {
            lemma_pack_fields(from, to, flags);
        }
        let f = from as u16;
        let t = to as u16;
        let g = flags as u16;
        assert(((t << 6u16) & 0x0FC0u16) == (((to as u16) << 6u16) & 0x0FC0u16));
        Move { payload: (f & 0x003F) | ((t << 6) & 0x0FC0) | ((g << 12) & 0xF000) }
    }

    /// Origin square of the move.
    pub fn from_square(&self) -> (r: u8)
        ensures
            r == self.from_sq(),
            r < 64,
    {
        proof {
            let p = self.payload;
            assert(((p & 0x003Fu16) as u8) < 64) by (bit_vector);
        }
        (self.payload & 0x003F) as u8
    }

    /// Destination square of the move.
    pub fn to_square(&self) -> (r: u8)
        ensures
            r == self.to_sq(),
            r < 64,
    {
        proof {
            let p = self.payload;
            assert((((p & 0x0FC0u16) >> 6u16) as u8) < 64) by (bit_vector);
        }
        ((self.payload & 0x0FC0) >> 6) as u8
    }

    /// Flag nibble of the move.
    pub fn flags(&self) -> (r: u8)
        ensures
            r == self.flag_bits(),
            r < 16,
    {
        proof {
            let p = self.payload;
            assert((((p & 0xF000u16) >> 12u16) as u8) < 16) by (bit_vector);
        }
        ((self.payload & 0xF000) >> 12) as u8
    }
}

/// A sequence of moves cut to the capacity of a `MoveList`.
pub open spec fn capped(s: Seq<Move>) -> Seq<Move> {
    if s.len() <= MAX_MOVE_COUNT {
        s
    } else {
        s.take(MAX_MOVE_COUNT as int)
    }
}

/// Cutting twice to capacity is cutting once.
pub proof fn lemma_capped_append(x: Seq<Move>, b: Seq<Move>)
    ensures
        capped(capped(x) + b) == capped(x + b),
{
    if x.len() > MAX_MOVE_COUNT {
        assert(capped(capped(x) + b) =~= capped(x + b));
    }
}

/// The moves from `from` to each square of `mask`, lowest destination first; a move is flagged
/// as a capture exactly when its destination holds an enemy piece.
pub open spec fn mask_moves(from: u8, mask: u64, enemy: u64) -> Seq<Move>
    decreases mask,
{
    if mask == 0 {
        Seq::empty()
    } else {
        let to = lowest_bit(mask);
        let flags: u8 = flag_for(enemy, to);
        proof {
            lemma_clear_lowest(mask);
        }
        seq![Move::spec_new(from, to as u8, flags)] + mask_moves(
            from,
            mask & ((mask - 1) as u64),
            enemy,
        )
    }
}

/// The flag nibble of a move landing on `to`: the capture flag when an enemy piece is there.
pub open spec fn flag_for(enemy: u64, to: u64) -> u8 {
    if bit_set(enemy, to) {
        Move::CAPTURE_FLAG
    } else {
        0u8
    }
}

/// Each move of `mask_moves` goes from `from` to a square of the mask with the flag of that
/// square, and every square of the mask gets its move.
pub proof fn lemma_mask_moves_members(from: u8, mask: u64, enemy: u64)
    requires
        from < 64,
    ensures
        forall|i: int|
            0 <= i < mask_moves(from, mask, enemy).len() ==> {
                let m = #[trigger] mask_moves(from, mask, enemy)[i];
                &&& m.to_sq() < 64
                &&& bit_set(mask, m.to_sq() as u64)
                &&& m == Move::spec_new(from, m.to_sq(), flag_for(enemy, m.to_sq() as u64))
            },
        forall|t: u64|
            t < 64 && bit_set(mask, t) ==> #[trigger] mask_moves(from, mask, enemy).contains(
                Move::spec_new(from, t as u8, flag_for(enemy, t)),
            ),
    decreases mask,
{
    broadcast use Move::lemma_spec_new_fields;

    if mask != 0 {
        lemma_clear_lowest(mask);
        lemma_lowest_bit(mask);
        let rest = mask & ((mask - 1) as u64);
        lemma_mask_moves_members(from, rest, enemy);
        let low = lowest_bit(mask);
        let head = Move::spec_new(from, low as u8, flag_for(enemy, low));
        let whole = mask_moves(from, mask, enemy);
        assert(whole == seq![head] + mask_moves(from, rest, enemy));
        assert forall|i: int| 0 <= i < whole.len() implies {
            let m = #[trigger] whole[i];
            &&& m.to_sq() < 64
            &&& bit_set(mask, m.to_sq() as u64)
            &&& m == Move::spec_new(from, m.to_sq(), flag_for(enemy, m.to_sq() as u64))
        } by {
            if i > 0 {
                assert(whole[i] == mask_moves(from, rest, enemy)[i - 1]);
            }
        }
        assert forall|t: u64| t < 64 && bit_set(mask, t) implies #[trigger] whole.contains(
            Move::spec_new(from, t as u8, flag_for(enemy, t)),
        ) by {
            if t == low {
                assert(whole[0] == head);
            } else {
                assert(bit_set(rest, t));
                assert(mask_moves(from, rest, enemy).contains(Move::spec_new(from, t as u8, flag_for(enemy, t))));
                let k = choose|k: int| 0 <= k < mask_moves(from, rest, enemy).len() && mask_moves(from, rest, enemy)[k]
                    == Move::spec_new(from, t as u8, flag_for(enemy, t));
                assert(whole[k + 1] == Move::spec_new(from, t as u8, flag_for(enemy, t)));
            }
        }
    } else {
        assert forall|t: u64| t < 64 && bit_set(mask, t) implies #[trigger] mask_moves(from, mask, enemy).contains(
            Move::spec_new(from, t as u8, flag_for(enemy, t)),
        ) by {}
    }
}

/// A fixed-capacity list of moves kept inline; pushes beyond the capacity are dropped.
pub struct MoveList {
    moves: [Move; MAX_MOVE_COUNT],
    count: usize,
}

impl View for MoveList {
    type V = Seq<Move>;

    closed spec fn view(&self) -> Seq<Move> {
        self.moves@.take(self.count as int)
    }
}

impl MoveList {
    #[verifier::type_invariant]
    spec fn count_in_bounds(self) -> bool {
        self.count <= MAX_MOVE_COUNT
    }

    /// An empty list.
    pub fn new() -> (r: Self)
        ensures
            r@ == Seq::<Move>::empty(),
    {
        let r = MoveList { moves: [Move::new(0, 0, 0); 96], count: 0 };
        assert(r@ =~= Seq::<Move>::empty());
        r
    }

    /// Appends a move when there is room; a full list is left as it is.
    pub fn push(&mut self, m: Move)
        ensures
            final(self)@ == capped(old(self)@.push(m)),
            final(self)@ == if old(self)@.len() < MAX_MOVE_COUNT {
                old(self)@.push(m)
            } else {
                old(self)@
            },
    {
        proof {
            use_type_invariant(&*self);
        }
        if self.count < MAX_MOVE_COUNT {
            self.moves[self.count] = m;
            self.count = self.count + 1;
        }
        assert(self@ =~= if old(self)@.len() < MAX_MOVE_COUNT {
            old(self)@.push(m)
        } else {
            old(self)@
        });
        assert(capped(old(self)@.push(m)) =~= self@);
    }

    /// The number of stored moves.
    pub fn len(&self) -> (r: usize)
        ensures
            r == self@.len(),
            r <= MAX_MOVE_COUNT,
    {
        proof {
            use_type_invariant(self);
        }
        self.count
    }

    /// Whether no move is stored.
    pub fn is_empty(&self) -> (r: bool)
        ensures
            r == (self@.len() == 0),
    {
        proof {
            use_type_invariant(self);
        }
        self.count == 0
    }

    /// The move at position `index`.
    pub fn get(&self, index: usize) -> (r: Move)
        requires
            index < self@.len(),
        ensures
            r == self@[index as int],
    {
        proof {
            use_type_invariant(self);
        }
        self.moves[index]
    }

    /// Exchanges the moves at positions `i` and `j`.
    pub fn swap(&mut self, i: usize, j: usize)
        requires
            i < old(self)@.len(),
            j < old(self)@.len(),
        ensures
            final(self)@ == old(self)@.update(i as int, old(self)@[j as int]).update(j as int, old(self)@[i as int]),
    {
        proof {
            use_type_invariant(&*self);
        }
        let a = self.moves[i];
        let b = self.moves[j];
        self.moves[i] = b;
        self.moves[j] = a;
        assert(self@ =~= old(self)@.update(i as int, old(self)@[j as int]).update(j as int, old(self)@[i as int]));
    }

    /// The stored moves, as a slice.
    pub fn as_slice(&self) -> (r: &[Move])
        ensures
            r@ == self@,
    {
        proof {
            use_type_invariant(self);
        }
        let all: &[Move] = self.moves.as_slice();
        let r = vstd::slice::slice_subrange(all, 0, self.count);
        assert(r@ =~= self@);
        r
    }

    /// The stored moves, as a mutable slice: what is written through it is what the list holds
    /// afterwards.
    pub fn as_mut_slice(&mut self) -> (r: &mut [Move])
        ensures
            r@ == old(self)@,
            final(r)@.len() == r@.len() ==> final(self)@ == final(r)@,
    {
        proof {
            use_type_invariant(&*self);
        }
        let count = self.count;
        let all: &mut [Move] = &mut self.moves;
        let (head, tail) = all.split_at_mut(count);
        assert(head@ =~= old(self)@);
        head
    }

    /// Moves the entry at `index` to the front, keeping the order of the others; an index of
    /// 0 or out of range leaves the list unchanged.
    pub fn move_to_front(&mut self, index: usize)
        ensures
            final(self)@ == if index == 0 || index >= old(self)@.len() {
                old(self)@
            } else {
                seq![old(self)@[index as int]] + old(self)@.take(index as int) + old(self)@.skip(
                    index + 1,
                )
            },
    {
        proof {
            use_type_invariant(&*self);
        }
        if index == 0 || index >= self.count {
            return;
        }
        let ghost before = self.moves@;
        let target = self.moves[index];
        let mut i = index;
        while i > 0
            invariant
                0 <= i <= index,
                index < self.count <= MAX_MOVE_COUNT,
                self.count == old(self).count,
                before == old(self).moves@,
                self.moves@.len() == MAX_MOVE_COUNT,
                forall|k: int| 0 <= k <= i ==> self.moves@[k] == before[k],
                forall|k: int| i < k <= index ==> self.moves@[k] == before[k - 1],
                forall|k: int| index < k < MAX_MOVE_COUNT ==> self.moves@[k] == before[k],
            decreases i,
        {
            let prev = self.moves[i - 1];
            self.moves[i] = prev;
            i = i - 1;
        }
        self.moves[0] = target;
        assert(self@ =~= seq![old(self)@[index as int]] + old(self)@.take(index as int) + old(
            self,
        )@.skip(index + 1));
    }

    /// Takes the list apart into an iterator over its moves.
    pub fn into_iter(self) -> (r: MoveListIntoIter)
        ensures
            r.list@ == self@,
            r.index == 0,
    {
        MoveListIntoIter { list: self, index: 0 }
    }
}

/// An iterator over the moves of a `MoveList`, by value.
pub struct MoveListIntoIter {
    pub list: MoveList,
    pub index: usize,
}

impl MoveListIntoIter {
    /// The next move, or `None` once every stored move has been handed out.
    pub fn next(&mut self) -> (r: Option<Move>)
        ensures
            old(self).index < old(self).list@.len() ==> r == Some(old(self).list@[old(self).index as int])
                && final(self).index == old(self).index + 1,
            old(self).index >= old(self).list@.len() ==> r is None && final(self).index == old(self).index,
            final(self).list@ == old(self).list@,
    {
        if self.index < self.list.len() {
            let m = self.list.get(self.index);
            self.index = self.index + 1;
            Some(m)
        } else {
            None
        }
    }
}

impl Move {
    /// Pushes onto `move_list` one move from `from_idx` to each square of `destination_mask`,
    /// lowest destination first; a move landing on an enemy piece carries the capture flag.
    /// The `flags` argument is not used.
    pub fn extract_moves_from_mask(
        from_idx: u8,
        destination_mask: Bitboard,
        enemy_pieces: Bitboard,
        flags: u8,
        move_list: &mut MoveList,
    )
        ensures
            final(move_list)@ == capped(old(move_list)@ + mask_moves(
                from_idx,
                destination_mask.0,
                enemy_pieces.0,
            )),
            final(move_list)@.len() <= MAX_MOVE_COUNT,
    {
        broadcast use Move::lemma_spec_new_fields;

        let ghost initial_mask = destination_mask.0;
        let mut destination_mask = destination_mask;
        proof {
            use_type_invariant(&*move_list);
            assert(old(move_list)@ + mask_moves(from_idx, destination_mask.0, enemy_pieces.0)
                =~= move_list@ + mask_moves(from_idx, destination_mask.0, enemy_pieces.0));
        }
        while !destination_mask.is_empty()
            invariant
                capped(move_list@ + mask_moves(from_idx, destination_mask.0, enemy_pieces.0))
                    == capped(old(move_list)@ + mask_moves(
                    from_idx,
                    initial_mask,
                    enemy_pieces.0,
                )),
                move_list@.len() <= MAX_MOVE_COUNT,
            decreases destination_mask.0,
        {
            let ghost cur = destination_mask.0;
            let ghost before = move_list@;
            let to_idx = destination_mask.pop_lsb();
            let to_mask = Bitboard::from_square(to_idx);
            proof {
                assert((destination_mask.0 & to_mask.0) == 0u64) by {
                    assert forall|i: u64| i < 64 implies !bit_set(destination_mask.0 & to_mask.0, i) by {}
                    crate::bitboard::lemma_no_bits_zero(destination_mask.0 & to_mask.0);
                }
                if !((enemy_pieces.0 & to_mask.0) == 0) {
                    assert(bit_set(enemy_pieces.0 & to_mask.0, to_idx as u64)) by {
                        if !bit_set(enemy_pieces.0 & to_mask.0, to_idx as u64) {
                            assert forall|i: u64| i < 64 implies !bit_set(enemy_pieces.0 & to_mask.0, i) by {}
                            crate::bitboard::lemma_no_bits_zero(enemy_pieces.0 & to_mask.0);
                        }
                    }
                }
            }
            let flags = if !Bitboard(destination_mask.0 & to_mask.0).is_empty() || !Bitboard(
                enemy_pieces.0 & to_mask.0,
            ).is_empty() {
                Self::CAPTURE_FLAG
            } else {
                0
            };
            let m = Self::new(from_idx, to_idx, flags);
            move_list.push(m);
            proof {
                if bit_set(enemy_pieces.0, to_idx as u64) {
                    assert(bit_set(enemy_pieces.0 & to_mask.0, to_idx as u64));
                }
                assert(flags == flag_for(enemy_pieces.0, lowest_bit(cur)));
                assert(m == Move::spec_new(from_idx, lowest_bit(cur) as u8, flags));
                assert(mask_moves(from_idx, cur, enemy_pieces.0) == seq![m] + mask_moves(
                    from_idx,
                    destination_mask.0,
                    enemy_pieces.0,
                ));
                lemma_capped_append(before.push(m), mask_moves(from_idx, destination_mask.0, enemy_pieces.0));
                assert(before.push(m) + mask_moves(from_idx, destination_mask.0, enemy_pieces.0)
                    =~= before + mask_moves(from_idx, cur, enemy_pieces.0));
                use_type_invariant(&*move_list);
            }
        }
    }
}

impl core::ops::Deref for MoveList {
    type Target = [Move];

    /// The stored moves, as a slice.
    fn deref(&self) -> (r: &[Move])
        ensures
            r@ == self@,
    {
        self.as_slice()
    }
}

impl core::ops::DerefMut for MoveList {
    /// The stored moves, as a mutable slice.
    fn deref_mut(&mut self) -> (r: &mut [Move])
        ensures
            r@ == old(self)@,
            final(r)@.len() == r@.len() ==> final(self)@ == final(r)@,
    {
        self.as_mut_slice()
    }
}

} // verus!
