use vstd::prelude::*;
use vstd::std_specs::bits::{u64_trailing_zeros, axiom_u64_trailing_zeros};
use vstd::std_specs::ops::{BitAndSpecImpl, BitOrSpecImpl, BitXorSpecImpl, NotSpecImpl, ShlSpecImpl, ShrSpecImpl};
use vstd::string::StringExecFns;
use crate::text::{hex16, board_rows, mark_texts, push_hex16, push_board_rows};

verus! {

/// Whether bit `i` of the word `x` is set (square `i` is in the set `x`).
pub open spec fn bit_set(x: u64, i: u64) -> bool {
    (x >> i) & 1u64 == 1u64
}

/// The squares of a board word, as a set of indices in `0..64`.
pub open spec fn squares(x: u64) -> Set<int> {
    Set::new(|i: int| 0 <= i < 64 && bit_set(x, i as u64))
}

/// Number of set bits of `x` among the bits `0..n`.
pub open spec fn count_below(x: u64, n: nat) -> nat
    decreases n,
{
    if n == 0 {
        0
    } else {
        count_below(x, (n - 1) as nat) + if bit_set(x, (n - 1) as u64) {
            1nat
        } else {
            0nat
        }
    }
}

/// Number of set bits of a board word.
pub open spec fn popcount(x: u64) -> nat {
    count_below(x, 64)
}

/// Index of the lowest set bit (64 for the empty word).
pub open spec fn lowest_bit(x: u64) -> u64 {
    u64_trailing_zeros(x) as u64
}

pub broadcast proof fn lemma_has_or(a: u64, b: u64, i: u64)
    requires
        i < 64,
    ensures
        #[trigger] bit_set(a | b, i) == (bit_set(a, i) || bit_set(b, i)),
{
    assert(i < 64 ==> (((a | b) >> i) & 1u64 == 1u64) == (((a >> i) & 1u64 == 1u64) || ((b >> i)
        & 1u64 == 1u64))) by (bit_vector);
}

pub broadcast proof fn lemma_has_and(a: u64, b: u64, i: u64)
    requires
        i < 64,
    ensures
        #[trigger] bit_set(a & b, i) == (bit_set(a, i) && bit_set(b, i)),
{
    assert(i < 64 ==> (((a & b) >> i) & 1u64 == 1u64) == (((a >> i) & 1u64 == 1u64) && ((b >> i)
        & 1u64 == 1u64))) by (bit_vector);
}

pub broadcast proof fn lemma_has_xor(a: u64, b: u64, i: u64)
    requires
        i < 64,
    ensures
        #[trigger] bit_set(a ^ b, i) == (bit_set(a, i) != bit_set(b, i)),
{
    assert(i < 64 ==> (((a ^ b) >> i) & 1u64 == 1u64) == (((a >> i) & 1u64 == 1u64) != ((b >> i)
        & 1u64 == 1u64))) by (bit_vector);
}

pub broadcast proof fn lemma_has_not(a: u64, i: u64)
    requires
        i < 64,
    ensures
        #[trigger] bit_set(!a, i) == !bit_set(a, i),
{
    assert(i < 64 ==> (((!a) >> i) & 1u64 == 1u64) == !((a >> i) & 1u64 == 1u64)) by (bit_vector);
}

pub broadcast proof fn lemma_has_single(s: u64, i: u64)
    requires
        i < 64,
        s < 64,
    ensures
        #[trigger] bit_set(1u64 << s, i) == (i == s),
{
    assert(i < 64 && s < 64 ==> ((((1u64 << s) >> i) & 1u64 == 1u64) == (i == s))) by (bit_vector);
}

pub broadcast proof fn lemma_has_zero(i: u64)
    ensures
        !#[trigger] bit_set(0u64, i),
{
    assert(((0u64 >> i) & 1u64) == 0u64) by (bit_vector);
}

pub broadcast proof fn lemma_has_full(i: u64)
    requires
        i < 64,
    ensures
        #[trigger] bit_set(0xFFFF_FFFF_FFFF_FFFFu64, i),
{
    assert(i < 64 ==> ((0xFFFF_FFFF_FFFF_FFFFu64 >> i) & 1u64) == 1u64) by (bit_vector);
}

pub broadcast group group_bits {
    lemma_has_or,
    lemma_has_and,
    lemma_has_xor,
    lemma_has_not,
    lemma_has_single,
    lemma_has_zero,
    lemma_has_full,
}

/// A nonzero word has its lowest set bit at `lowest_bit`, and no set bit below it.
pub proof fn lemma_lowest_bit(x: u64)
    ensures
        x != 0 ==> lowest_bit(x) < 64 && bit_set(x, lowest_bit(x)),
        x == 0 ==> lowest_bit(x) == 64,
        forall|j: u64| j < lowest_bit(x) ==> !bit_set(x, j),
{
    axiom_u64_trailing_zeros(x);
    assert forall|j: u64| j < lowest_bit(x) implies !bit_set(x, j) by {
        assert(0 <= j < u64_trailing_zeros(x));
        assert((x >> j) & 1u64 == 0u64);
    }
}

/// A word with no set bit among `0..64` is zero.
pub proof fn lemma_no_bits_zero(x: u64)
    requires
        forall|i: u64| i < 64 ==> !bit_set(x, i),
    ensures
        x == 0,
{
    lemma_lowest_bit(x);
}

/// Two words with the same bits are equal.
pub proof fn lemma_bits_ext(a: u64, b: u64)
    requires
        forall|i: u64| i < 64 ==> bit_set(a, i) == bit_set(b, i),
    ensures
        a == b,
{
    broadcast use group_bits;

    assert forall|i: u64| i < 64 implies !bit_set(a ^ b, i) by {}
    lemma_no_bits_zero(a ^ b);
    assert(a ^ b == 0u64 ==> a == b) by (bit_vector);
}

proof fn lemma_lowest_bit_bv(x: u64, t: u64)
    by (bit_vector)
    requires
        x != 0,
        t < 64,
        (x >> t) & 1u64 == 1u64,
        (x << ((64 - t) as u64)) == 0u64,
    ensures
        x & ((x - 1) as u64) == x ^ (1u64 << t),
        x & ((!x + 1) as u64) == 1u64 << t,
        !x < 0xFFFF_FFFF_FFFF_FFFFu64,
        (x & ((x - 1) as u64)) < x,
{
}

/// Facts about the lowest set bit of a nonzero word, stated on words.
pub proof fn lemma_lowest_bit_words(x: u64)
    requires
        x != 0,
    ensures
        x & ((x - 1) as u64) == x ^ (1u64 << lowest_bit(x)),
        x & ((!x + 1) as u64) == 1u64 << lowest_bit(x),
        !x < 0xFFFF_FFFF_FFFF_FFFFu64,
        (x & ((x - 1) as u64)) < x,
{
    axiom_u64_trailing_zeros(x);
    lemma_lowest_bit_bv(x, lowest_bit(x));
}

/// Clearing the lowest set bit removes exactly that bit.
pub proof fn lemma_clear_lowest(x: u64)
    requires
        x != 0,
    ensures
        forall|i: u64| i < 64 ==> #[trigger] bit_set(x & ((x - 1) as u64), i) == (bit_set(x, i) && i
            != lowest_bit(x)),
        (x & ((x - 1) as u64)) < x,
{
    broadcast use group_bits;

    lemma_lowest_bit(x);
    lemma_lowest_bit_words(x);
}

/// The number of set bits below `n` never exceeds `n`.
pub proof fn lemma_count_below_le(x: u64, n: nat)
    ensures
        count_below(x, n) <= n,
    decreases n,
{
    if n > 0 {
        lemma_count_below_le(x, (n - 1) as nat);
    }
}

/// A board word holds at most 64 squares.
pub proof fn lemma_popcount_le(x: u64)
    ensures
        popcount(x) <= 64,
{
    lemma_count_below_le(x, 64);
}

/// Counting the squares of two disjoint words adds up.
pub proof fn lemma_count_below_disjoint(a: u64, b: u64, n: nat)
    requires
        n <= 64,
        a & b == 0,
    ensures
        count_below(a | b, n) == count_below(a, n) + count_below(b, n),
    decreases n,
{
    broadcast use group_bits;

    if n > 0 {
        lemma_count_below_disjoint(a, b, (n - 1) as nat);
        let i = (n - 1) as u64;
        assert(!bit_set(a & b, i));
    }
}

/// A word whose bits are those of `a` or those of `b` counts the squares of both, when they
/// share none.
pub proof fn lemma_popcount_disjoint(a: u64, b: u64)
    requires
        a & b == 0,
    ensures
        popcount(a | b) == popcount(a) + popcount(b),
{
    lemma_count_below_disjoint(a, b, 64);
}

/// Below `n`, the single-square word of `k` counts one square exactly when `k < n`.
proof fn lemma_count_below_single(k: u64, n: nat)
    requires
        k < 64,
        n <= 64,
    ensures
        count_below(1u64 << k, n) == if k < n { 1nat } else { 0nat },
    decreases n,
{
    broadcast use group_bits;

    if n > 0 {
        lemma_count_below_single(k, (n - 1) as nat);
        assert(bit_set(1u64 << k, (n - 1) as u64) == ((n - 1) as u64 == k));
    }
}

/// Taking square `k` out of a word that holds it leaves one square fewer.
pub proof fn lemma_popcount_remove(x: u64, k: u64)
    requires
        k < 64,
        bit_set(x, k),
    ensures
        popcount(x & !(1u64 << k)) + 1 == popcount(x),
{
    broadcast use group_bits;

    let b = 1u64 << k;
    let y = x & !b;
    assert forall|i: u64| i < 64 implies !bit_set(y & b, i) by {}
    lemma_no_bits_zero(y & b);
    assert forall|i: u64| i < 64 implies bit_set(y | b, i) == bit_set(x, i) by {}
    lemma_bits_ext(y | b, x);
    lemma_popcount_disjoint(y, b);
    lemma_count_below_single(k, 64);
}

/// Putting square `k` into a word that lacks it adds one square.
pub proof fn lemma_popcount_insert(x: u64, k: u64)
    requires
        k < 64,
        !bit_set(x, k),
    ensures
        popcount(x | (1u64 << k)) == popcount(x) + 1,
{
    broadcast use group_bits;

    let b = 1u64 << k;
    assert forall|i: u64| i < 64 implies !bit_set(x & b, i) by {}
    lemma_no_bits_zero(x & b);
    lemma_popcount_disjoint(x, b);
    lemma_count_below_single(k, 64);
}

/// Clearing square `k` of a word that lacks it changes nothing.
pub proof fn lemma_clear_absent(x: u64, k: u64)
    requires
        k < 64,
        !bit_set(x, k),
    ensures
        x & !(1u64 << k) == x,
{
    broadcast use group_bits;

    assert forall|i: u64| i < 64 implies bit_set(x & !(1u64 << k), i) == bit_set(x, i) by {}
    lemma_bits_ext(x & !(1u64 << k), x);
}

/// The word whose bits below `n` are those satisfying `pred`.
pub open spec fn word_of(pred: spec_fn(u64) -> bool, n: nat) -> u64
    decreases n,
{
    if n == 0 {
        0
    } else if n > 64 {
        word_of(pred, 64)
    } else {
        word_of(pred, (n - 1) as nat) | if pred((n - 1) as u64) {
            1u64 << ((n - 1) as u64)
        } else {
            0u64
        }
    }
}

/// The bits of `word_of(pred, n)` are exactly those below `n` satisfying `pred`.
pub proof fn lemma_word_of(pred: spec_fn(u64) -> bool, n: nat)
    requires
        n <= 64,
    ensures
        forall|i: u64| i < 64 ==> #[trigger] bit_set(word_of(pred, n), i) == (i < n && pred(i)),
    decreases n,
{
    broadcast use group_bits;

    if n > 0 {
        let k = (n - 1) as u64;
        lemma_word_of(pred, k as nat);
        let prev = word_of(pred, k as nat);
        let add_bit = if pred(k) { 1u64 << k } else { 0u64 };
        assert(word_of(pred, n) == prev | add_bit);
        assert forall|i: u64| i < 64 implies #[trigger] bit_set(word_of(pred, n), i) == (i < n && pred(i)) by {
            assert(bit_set(prev | add_bit, i) == (bit_set(prev, i) || bit_set(add_bit, i)));
            if pred(k) {
                assert(bit_set(add_bit, i) == (i == k));
            } else {
                assert(!bit_set(add_bit, i));
            }
        }
    }
}

/// A set of board squares packed into one 64-bit word; bit `i` stands for square `i`.
#[derive(Clone, Copy, Default, PartialEq, Eq, Structural, PartialOrd, Ord, Debug, Hash)]
pub struct Bitboard(pub u64);

impl Bitboard {
    /// Wraps a raw board word.
    pub fn new(val: u64) -> (r: Self)
        ensures
            r.0 == val,
    {
        Bitboard(val)
    }

    /// The board holding exactly one square.
    pub fn from_square(square: u8) -> (r: Self)
        requires
            square < 64,
        ensures
            r.0 == 1u64 << square,
            forall|i: u64| i < 64 ==> bit_set(r.0, i) == (i == square),
    {
        broadcast use group_bits;

        Bitboard(1u64 << square)
    }

    /// Whether the board holds no square.
    pub fn is_empty(self) -> (r: bool)
        ensures
            r == (self.0 == 0),
    {
        self.0 == 0
    }

    /// Whether the square `index` is in the board.
    pub fn has_bit(self, index: u8) -> (r: bool)
        requires
            index < 64,
        ensures
            r == bit_set(self.0, index as u64),
    {
        let x = self.0;
        let i = index as u64;
        assert(((x >> i) & 1u64 != 0u64) == ((x >> i) & 1u64 == 1u64)) by (bit_vector);
        ((x >> i) & 1) != 0
    }

    /// The board holding only the lowest square of the board (`b & -b`); empty for an empty
    /// board.
    pub fn least_significant_bit(self) -> (r: Self)
        ensures
            self.0 == 0 ==> r.0 == 0,
            self.0 != 0 ==> r.0 == 1u64 << lowest_bit(self.0),
            forall|i: u64| i < 64 ==> bit_set(r.0, i) == (self.0 != 0 && i == lowest_bit(self.0)),
    {
        let x = self.0;
        broadcast use group_bits;

        if x == 0 {
            let y = (!x).wrapping_add(1);
            assert(x & y == 0u64) by (bit_vector)
                requires
                    x == 0u64,
            ;
            return Bitboard(x & y);
        }
        proof {
            lemma_lowest_bit(self.0);
            lemma_lowest_bit_words(self.0);
        }
        assert(!x < 0xFFFF_FFFF_FFFF_FFFFu64) by (bit_vector)
            requires
                x != 0,
        ;
        Bitboard(x & (!x).wrapping_add(1))
    }

    /// Removes the lowest square of a nonempty board and returns its index.
    pub fn pop_lsb(&mut self) -> (index: u8)
        requires
            old(self).0 != 0,
        ensures
            index as u64 == lowest_bit(old(self).0),
            index < 64,
            bit_set(old(self).0, index as u64),
            final(self).0 == old(self).0 & ((old(self).0 - 1) as u64),
            final(self).0 < old(self).0,
            forall|i: u64| #![trigger bit_set(final(self).0, i)] i < 64 ==> bit_set(final(self).0, i) == (bit_set(old(self).0, i)
                && i != index),
    {
        proof {
            lemma_lowest_bit(self.0);
            lemma_clear_lowest(self.0);
        }
        let index = self.0.trailing_zeros() as u8;
        self.0 = self.0 & (self.0 - 1);
        index
    }

    /// The number of squares in the board.
    pub fn count_ones(self) -> (r: u32)
        ensures
            r == popcount(self.0),
    {
        let mut count: u32 = 0;
        let mut i: u64 = 0;
        while i < 64
            invariant
                i <= 64,
                count == count_below(self.0, i as nat),
                count <= i,
            decreases 64 - i,
        {
            proof {
                lemma_count_below_le(self.0, i as nat);
            }
            if (self.0 >> i) & 1 == 1 {
                count = count + 1;
            }
            i = i + 1;
        }
        count
    }

    /// The board drawn as text: its word in hexadecimal, then one line per rank from rank 8
    /// down, a `1` on each square of the set and a `.` elsewhere, then the file letters.
    pub fn display_text(&self) -> (r: String)
        ensures
            r@ == bitboard_text(self.0),
    {
        let mut marks: Vec<&str> = Vec::new();
        let mut i: u8 = 0;
        while i < 64
            invariant
                i <= 64,
                marks@.len() == i,
                mark_texts(marks@) == bit_marks(self.0).take(i as int),
            decreases 64 - i,
        {
            let ghost before = marks@;
            if self.has_bit(i) {
                marks.push(" 1");
            } else {
                marks.push(" .");
            }
            assert(mark_texts(marks@) =~= mark_texts(before).push(bit_marks(self.0)[i as int]));
            assert(bit_marks(self.0).take(i + 1) =~= bit_marks(self.0).take(i as int).push(bit_marks(self.0)[i as int]));
            i = i + 1;
        }
        assert(bit_marks(self.0).take(64) =~= bit_marks(self.0));
        let mut text = String::from_str("Bitboard(0x");
        push_hex16(&mut text, self.0);
        text.append("):\n");
        push_board_rows(&mut text, " ", &marks);
        text.append("     -----------------\n");
        text.append("       A B C D E F G H\n");
        text
    }
}

/// The marks of the squares of a board word: ` 1` where the set holds the square, ` .`
/// elsewhere.
pub open spec fn bit_marks(x: u64) -> Seq<Seq<char>> {
    Seq::new(64, |i: int| if bit_set(x, i as u64) { " 1"@ } else { " ."@ })
}

/// The drawing of a board word.
pub open spec fn bitboard_text(x: u64) -> Seq<char> {
    "Bitboard(0x"@ + hex16(x) + "):\n"@ + board_rows(" "@, bit_marks(x), 8) + "     -----------------\n"@
        + "       A B C D E F G H\n"@
}

// ============================================================================
// OPERATORS
// ============================================================================

impl core::ops::BitAndAssign for Bitboard {
    /// Keeps the squares also in `rhs`.
    fn bitand_assign(&mut self, rhs: Self)
        ensures
            final(self).0 == old(self).0 & rhs.0,
    {
        self.0 = self.0 & rhs.0;
    }
}

impl core::ops::BitOrAssign for Bitboard {
    /// Adds the squares of `rhs`.
    fn bitor_assign(&mut self, rhs: Self)
        ensures
            final(self).0 == old(self).0 | rhs.0,
    {
        self.0 = self.0 | rhs.0;
    }
}

impl core::ops::BitXorAssign for Bitboard {
    /// Toggles the squares of `rhs`.
    fn bitxor_assign(&mut self, rhs: Self)
        ensures
            final(self).0 == old(self).0 ^ rhs.0,
    {
        self.0 = self.0 ^ rhs.0;
    }
}

impl core::ops::ShlAssign<u8> for Bitboard {
    /// Shifts the squares up by `rhs` places.
    fn shl_assign(&mut self, rhs: u8)
        requires
            rhs < 64,
        ensures
            final(self).0 == old(self).0 << rhs,
    {
        self.0 = self.0 << rhs;
    }
}

impl core::ops::ShrAssign<u8> for Bitboard {
    /// Shifts the squares down by `rhs` places.
    fn shr_assign(&mut self, rhs: u8)
        requires
            rhs < 64,
        ensures
            final(self).0 == old(self).0 >> rhs,
    {
        self.0 = self.0 >> rhs;
    }
}

impl core::ops::Deref for Bitboard {
    type Target = u64;

    /// The board word.
    fn deref(&self) -> (r: &u64)
        ensures
            *r == self.0,
    {
        &self.0
    }
}

impl core::ops::BitAnd for Bitboard {
    type Output = Bitboard;

    /// The squares on both boards.
    fn bitand(self, rhs: Bitboard) -> (r: Bitboard) {
        Bitboard(self.0 & rhs.0)
    }
}

impl BitAndSpecImpl for Bitboard {
    open spec fn obeys_bitand_spec() -> bool {
        true
    }

    open spec fn bitand_req(self, rhs: Bitboard) -> bool {
        true
    }

    open spec fn bitand_spec(self, rhs: Bitboard) -> Bitboard {
        Bitboard(self.0 & rhs.0)
    }
}

impl core::ops::BitOr for Bitboard {
    type Output = Bitboard;

    /// The squares on either board.
    fn bitor(self, rhs: Bitboard) -> (r: Bitboard) {
        Bitboard(self.0 | rhs.0)
    }
}

impl BitOrSpecImpl for Bitboard {
    open spec fn obeys_bitor_spec() -> bool {
        true
    }

    open spec fn bitor_req(self, rhs: Bitboard) -> bool {
        true
    }

    open spec fn bitor_spec(self, rhs: Bitboard) -> Bitboard {
        Bitboard(self.0 | rhs.0)
    }
}

impl core::ops::BitXor for Bitboard {
    type Output = Bitboard;

    /// The squares on exactly one of the boards.
    fn bitxor(self, rhs: Bitboard) -> (r: Bitboard) {
        Bitboard(self.0 ^ rhs.0)
    }
}

impl BitXorSpecImpl for Bitboard {
    open spec fn obeys_bitxor_spec() -> bool {
        true
    }

    open spec fn bitxor_req(self, rhs: Bitboard) -> bool {
        true
    }

    open spec fn bitxor_spec(self, rhs: Bitboard) -> Bitboard {
        Bitboard(self.0 ^ rhs.0)
    }
}

impl core::ops::Not for Bitboard {
    type Output = Bitboard;

    /// The squares not on the board.
    fn not(self) -> (r: Bitboard) {
        Bitboard(!self.0)
    }
}

impl NotSpecImpl for Bitboard {
    open spec fn obeys_not_spec() -> bool {
        true
    }

    open spec fn not_req(self) -> bool {
        true
    }

    open spec fn not_spec(self) -> Bitboard {
        Bitboard(!self.0)
    }
}

impl core::ops::Shl<u8> for Bitboard {
    type Output = Bitboard;

    /// Every square moved up by `rhs` indices (those past the top drop off).
    fn shl(self, rhs: u8) -> (r: Bitboard) {
        Bitboard(self.0 << rhs)
    }
}

impl ShlSpecImpl<u8> for Bitboard {
    open spec fn obeys_shl_spec() -> bool {
        true
    }

    open spec fn shl_req(self, rhs: u8) -> bool {
        rhs < 64
    }

    open spec fn shl_spec(self, rhs: u8) -> Bitboard {
        Bitboard(self.0 << rhs)
    }
}

impl core::ops::Shr<u8> for Bitboard {
    type Output = Bitboard;

    /// Every square moved down by `rhs` indices (those past the bottom drop off).
    fn shr(self, rhs: u8) -> (r: Bitboard) {
        Bitboard(self.0 >> rhs)
    }
}

impl ShrSpecImpl<u8> for Bitboard {
    open spec fn obeys_shr_spec() -> bool {
        true
    }

    open spec fn shr_req(self, rhs: u8) -> bool {
        rhs < 64
    }

    open spec fn shr_spec(self, rhs: u8) -> Bitboard {
        Bitboard(self.0 >> rhs)
    }
}

} // verus!
