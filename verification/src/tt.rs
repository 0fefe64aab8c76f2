use vstd::prelude::*;
use crate::score::EvaluationScore;
use crate::state::{GameState, Player, allies_of, enemies_of};

verus! {

/// How a stored score relates to the true value of the position.
#[derive(Clone, Copy, PartialEq, Eq, Structural, Debug)]
pub enum HashEntryBounds {
    /// The score is exact.
    Exact,
    /// The search failed low: the true value is at most the score.
    Upper,
    /// The search failed high: the true value is at least the score.
    Lower,
}

/// A cached search result.
#[derive(Clone, Copy, Debug)]
pub struct TranspositionEntry {
    pub state_key: u128,
    pub score: EvaluationScore,
    pub depth: usize,
    pub bounds: HashEntryBounds,
}

/// The identity of a position as the cache sees it: the side to move's pieces in the high
/// 64 bits, the other side's pieces in the low 64 bits.
pub open spec fn state_key(s: GameState) -> u128 {
    ((allies_of(s) as u128) << 64u128) | (enemies_of(s) as u128)
}

/// The 64-bit mix of a key: the two halves xor-folded, then the MurmurHash3 finalizer.
#[verifier::opaque]
pub open spec fn mix_key(key: u128) -> u64 {
    let h0 = ((key >> 64u128) ^ key) as u64;
    let h1 = h0 ^ (h0 >> 33u64);
    let h2 = h1.wrapping_mul(0xff51afd7ed558ccdu64);
    let h3 = h2 ^ (h2 >> 33u64);
    let h4 = h3.wrapping_mul(0xc4ceb9fe1a85ec53u64);
    h4 ^ (h4 >> 33u64)
}

/// The slot of a key in a table with the given index mask.
pub open spec fn slot_of(key: u128, mask: usize) -> int {
    ((mix_key(key) as usize) & mask) as int
}

/// A slot never exceeds the index mask.
pub proof fn lemma_slot_in_range(key: u128, mask: usize)
    ensures
        0 <= slot_of(key, mask) <= mask,
{
    let h = mix_key(key) as usize;
    assert((h & mask) <= mask) by (bit_vector);
}

/// The entry that a lookup of `s` finds in `entries`: the slot's entry when it carries the
/// key of `s`.
pub open spec fn spec_lookup(entries: Seq<Option<TranspositionEntry>>, mask: usize, s: GameState) -> Option<
    TranspositionEntry,
> {
    match entries[slot_of(state_key(s), mask)] {
        Some(e) => if e.state_key == state_key(s) {
            Some(e)
        } else {
            None
        },
        None => None,
    }
}

/// The entries after storing a result for `s`: the slot takes the new entry, unless it holds
/// an entry for the same key searched deeper.
pub open spec fn spec_store(
    entries: Seq<Option<TranspositionEntry>>,
    mask: usize,
    s: GameState,
    score: EvaluationScore,
    depth: usize,
    bounds: HashEntryBounds,
) -> Seq<Option<TranspositionEntry>> {
    let i = slot_of(state_key(s), mask);
    match entries[i] {
        Some(e) => if e.depth > depth && e.state_key == state_key(s) {
            entries
        } else {
            entries.update(i, Some(TranspositionEntry { state_key: state_key(s), score, depth, bounds }))
        },
        None => entries.update(
            i,
            Some(TranspositionEntry { state_key: state_key(s), score, depth, bounds }),
        ),
    }
}

/// A fixed-size cache of search results, one entry per slot, indexed by a hash of the
/// position.
pub struct TranspositionTable {
    table: Vec<Option<TranspositionEntry>>,
    mask: usize,
}

impl TranspositionTable {
    /// The table has one slot per value of the index mask.
    pub closed spec fn wf(&self) -> bool {
        self.table@.len() == self.mask + 1
    }

    /// The slots and the mask agree.
    pub proof fn lemma_wf_len(&self)
        requires
            self.wf(),
        ensures
            self.entries().len() == self.index_mask() + 1,
    {
    }

    /// The slots.
    pub closed spec fn entries(&self) -> Seq<Option<TranspositionEntry>> {
        self.table@
    }

    /// The index mask (the number of slots minus one).
    pub closed spec fn index_mask(&self) -> usize {
        self.mask
    }

    /// A table of `2^power_of_two` empty slots.
    pub fn with_capacity(power_of_two: usize) -> (r: Self)
        requires
            power_of_two < usize::BITS,
        ensures
            r.wf(),
            r.entries().len() == r.index_mask() + 1,
            r.index_mask() + 1 == (1usize << power_of_two),
            forall|i: int| 0 <= i < r.entries().len() ==> r.entries()[i] is None,
    {
        let size: usize = 1usize << power_of_two;
        assert(size >= 1) by (bit_vector)
            requires
                power_of_two < usize::BITS,
                size == 1usize << power_of_two,
        ;
        let mut table: Vec<Option<TranspositionEntry>> = Vec::new();
        let mut i: usize = 0;
        while i < size
            invariant
                i <= size,
                table@.len() == i,
                forall|j: int| 0 <= j < i ==> table@[j] is None,
            decreases size - i,
        {
            table.push(None);
            i = i + 1;
        }
        TranspositionTable { table, mask: size - 1 }
    }

    /// The cache identity of a position.
    fn make_key(&self, state: &GameState) -> (r: u128)
        ensures
            r == state_key(*state),
    {
        let (active_pieces, opponent_pieces) = match state.active_player {
            Player::P1 => (state.p1_pieces.0, state.p2_pieces.0),
            Player::P2 => (state.p2_pieces.0, state.p1_pieces.0),
        };
        ((active_pieces as u128) << 64) | (opponent_pieces as u128)
    }

    /// The key of a position and its slot.
    fn get_table_index(&self, state: &GameState) -> (r: (u128, usize))
        requires
            self.wf(),
        ensures
            r.0 == state_key(*state),
            r.1 == slot_of(state_key(*state), self.index_mask()),
            r.1 < self.entries().len(),
    {
        let key = self.make_key(state);
        proof {
            reveal(mix_key);
        }
        let mut hash = ((key >> 64) ^ key) as u64;
        hash = hash ^ (hash >> 33);
        hash = hash.wrapping_mul(0xff51afd7ed558ccd);
        hash = hash ^ (hash >> 33);
        hash = hash.wrapping_mul(0xc4ceb9fe1a85ec53);
        hash = hash ^ (hash >> 33);
        let h = hash as usize;
        let m = self.mask;
        let index = h & m;
        assert(index <= m) by (bit_vector)
            requires
                index == h & m,
        ;
        (key, index)
    }

    /// The cached entry of the position, if its slot holds an entry for this very position.
    pub fn lookup(&self, state: &GameState) -> (r: Option<TranspositionEntry>)
        requires
            self.wf(),
        ensures
            r == spec_lookup(self.entries(), self.index_mask(), *state),
    {
        let (key, index) = self.get_table_index(state);
        match self.table[index] {
            Some(entry) => {
                if entry.state_key == key {
                    Some(entry)
                } else {
                    None
                }
            },
            None => None,
        }
    }

    /// Caches a result for the position, replacing the slot's entry unless that entry is for
    /// the same position and was searched deeper.
    pub fn store(&mut self, state: &GameState, score: EvaluationScore, depth: usize, bounds: HashEntryBounds)
        requires
            old(self).wf(),
        ensures
            final(self).wf(),
            final(self).index_mask() == old(self).index_mask(),
            final(self).entries() == spec_store(old(self).entries(), old(self).index_mask(), *state, score, depth, bounds),
    {
        let (key, index) = self.get_table_index(state);
        match self.table[index] {
            Some(existing) => {
                if existing.depth > depth && existing.state_key == key {
                    return;
                }
            },
            None => {},
        }
        self.table.set(index, Some(TranspositionEntry { state_key: key, score, depth, bounds }));
    }
}

// ============================================================================
// LAWS
// ============================================================================

/// A lookup only ever returns an entry carrying the key of the position looked up.
pub proof fn lemma_lookup_matches_key(entries: Seq<Option<TranspositionEntry>>, mask: usize, s: GameState)
    requires
        spec_lookup(entries, mask, s) is Some,
    ensures
        spec_lookup(entries, mask, s)->Some_0.state_key == state_key(s),
{
}

/// Keys tell positions apart by the pieces of the side to move and of the other side.
pub proof fn lemma_state_key_injective(s1: GameState, s2: GameState)
    ensures
        state_key(s1) == state_key(s2) <==> (allies_of(s1) == allies_of(s2) && enemies_of(s1)
            == enemies_of(s2)),
{
    let a1 = allies_of(s1);
    let e1 = enemies_of(s1);
    let a2 = allies_of(s2);
    let e2 = enemies_of(s2);
    assert((((a1 as u128) << 64u128) | (e1 as u128)) == (((a2 as u128) << 64u128) | (e2 as u128)) <==> (
    a1 == a2 && e1 == e2)) by (bit_vector);
}

/// Reading back a position right after storing a result for it gives the stored result,
/// unless the slot already held a deeper result for the same position, which is kept and
/// read back instead.
pub proof fn lemma_lookup_after_store(
    entries: Seq<Option<TranspositionEntry>>,
    mask: usize,
    s: GameState,
    score: EvaluationScore,
    depth: usize,
    bounds: HashEntryBounds,
)
    requires
        entries.len() == mask + 1,
    ensures
        spec_lookup(spec_store(entries, mask, s, score, depth, bounds), mask, s) == if spec_lookup(entries, mask, s) matches Some(e) && e.depth > depth {
            spec_lookup(entries, mask, s)
        } else {
            Some(TranspositionEntry { state_key: state_key(s), score, depth, bounds })
        },
{
    let i = slot_of(state_key(s), mask);
    lemma_slot_in_range(state_key(s), mask);
}

/// Storing a result for one position leaves the lookup of a position in another slot as it
/// was.
pub proof fn lemma_store_keeps_other_slots(
    entries: Seq<Option<TranspositionEntry>>,
    mask: usize,
    s: GameState,
    other: GameState,
    score: EvaluationScore,
    depth: usize,
    bounds: HashEntryBounds,
)
    requires
        entries.len() == mask + 1,
        slot_of(state_key(s), mask) != slot_of(state_key(other), mask),
    ensures
        spec_lookup(spec_store(entries, mask, s, score, depth, bounds), mask, other) == spec_lookup(
            entries,
            mask,
            other,
        ),
{
    lemma_slot_in_range(state_key(s), mask);
    lemma_slot_in_range(state_key(other), mask);
}

} // verus!
