use vstd::prelude::*;
use vstd::string::StringExecFns;

verus! {

// ============================================================================
// NUMBERS AS TEXT
// ============================================================================

/// The character of the decimal digit `d`.
pub open spec fn digit_char(d: int) -> char {
    seq!['0', '1', '2', '3', '4', '5', '6', '7', '8', '9'][d]
}

/// The decimal digits of `n`, most significant first, without leading zeros.
pub open spec fn decimal(n: nat) -> Seq<char>
    decreases n,
{
    if n < 10 {
        seq![digit_char(n as int)]
    } else {
        decimal(n / 10).push(digit_char((n % 10) as int))
    }
}

/// The decimal text of `v`, with a minus sign when it is negative.
pub open spec fn signed_decimal(v: int) -> Seq<char> {
    if v < 0 {
        seq!['-'] + decimal((-v) as nat)
    } else {
        decimal(v as nat)
    }
}

/// The one-character text of the digit `d`.
pub fn digit_text(d: u32) -> (r: &'static str)
    requires
        d < 10,
    ensures
        r@ == seq![digit_char(d as int)],
{
    proof {
        reveal_strlit("0");
        reveal_strlit("1");
        reveal_strlit("2");
        reveal_strlit("3");
        reveal_strlit("4");
        reveal_strlit("5");
        reveal_strlit("6");
        reveal_strlit("7");
        reveal_strlit("8");
        reveal_strlit("9");
    }
    match d {
        0 => "0",
        1 => "1",
        2 => "2",
        3 => "3",
        4 => "4",
        5 => "5",
        6 => "6",
        7 => "7",
        8 => "8",
        _ => "9",
    }
}

/// Appends the decimal digits of `n` to `text`.
pub fn push_decimal(text: &mut String, n: u32)
    ensures
        final(text)@ == old(text)@ + decimal(n as nat),
    decreases n,
{
    if n >= 10 {
        push_decimal(text, n / 10);
    }
    text.append(digit_text(n % 10));
    proof {
        if n >= 10 {
            assert(decimal(n as nat) == decimal((n / 10) as nat).push(digit_char((n % 10) as int)));
        }
    }
    assert(text@ =~= old(text)@ + decimal(n as nat));
}

/// The character of the hexadecimal digit `d`, upper case.
pub open spec fn hex_char(d: int) -> char {
    seq!['0', '1', '2', '3', '4', '5', '6', '7', '8', '9', 'A', 'B', 'C', 'D', 'E', 'F'][d]
}

/// The `i`-th hexadecimal digit of `x`, counted from the most significant of sixteen.
pub open spec fn hex_digit_of(x: u64, i: int) -> u64 {
    (x >> ((60 - 4 * i) as u64)) & 15u64
}

/// The sixteen hexadecimal digits of `x`, upper case, leading zeros kept.
pub open spec fn hex16(x: u64) -> Seq<char> {
    Seq::new(16, |i: int| hex_char(hex_digit_of(x, i) as int))
}

/// The one-character text of the hexadecimal digit `d`.
fn hex_text(d: u64) -> (r: &'static str)
    requires
        d < 16,
    ensures
        r@ == seq![hex_char(d as int)],
{
    proof {
        reveal_strlit("0");
        reveal_strlit("1");
        reveal_strlit("2");
        reveal_strlit("3");
        reveal_strlit("4");
        reveal_strlit("5");
        reveal_strlit("6");
        reveal_strlit("7");
        reveal_strlit("8");
        reveal_strlit("9");
        reveal_strlit("A");
        reveal_strlit("B");
        reveal_strlit("C");
        reveal_strlit("D");
        reveal_strlit("E");
        reveal_strlit("F");
    }
    match d {
        0 => "0",
        1 => "1",
        2 => "2",
        3 => "3",
        4 => "4",
        5 => "5",
        6 => "6",
        7 => "7",
        8 => "8",
        9 => "9",
        10 => "A",
        11 => "B",
        12 => "C",
        13 => "D",
        14 => "E",
        _ => "F",
    }
}

/// Appends the sixteen hexadecimal digits of `x` to `text`.
pub fn push_hex16(text: &mut String, x: u64)
    ensures
        final(text)@ == old(text)@ + hex16(x),
{
    let mut i: u64 = 0;
    while i < 16
        invariant
            i <= 16,
            text@ == old(text)@ + hex16(x).take(i as int),
        decreases 16 - i,
    {
        let shift: u64 = 60 - 4 * i;
        let d = (x >> shift) & 15;
        assert(d < 16) by (bit_vector)
            requires
                d == (x >> shift) & 15u64,
        ;
        assert(d == hex_digit_of(x, i as int));
        text.append(hex_text(d));
        assert(hex16(x).take((i + 1) as int) =~= hex16(x).take(i as int).push(hex_char(d as int)));
        i = i + 1;
    }
    assert(hex16(x).take(16) =~= hex16(x));
}

// ============================================================================
// BOARDS AS TEXT
// ============================================================================

/// The marks of the first `n` files of rank `rank` (file A first), square `8 * rank + f`
/// marked by `marks[8 * rank + f]`.
pub open spec fn cells_text(marks: Seq<Seq<char>>, rank: int, n: nat) -> Seq<char>
    decreases n,
{
    if n == 0 {
        Seq::empty()
    } else {
        cells_text(marks, rank, (n - 1) as nat) + marks[rank * 8 + n - 1]
    }
}

/// The line of rank `rank` (counted from 0): the prefix, the rank's number, a bar, the marks
/// of its eight squares.
pub open spec fn rank_row(prefix: Seq<char>, marks: Seq<Seq<char>>, rank: int) -> Seq<char> {
    prefix + seq![digit_char(rank + 1)] + " |"@ + cells_text(marks, rank, 8) + "\n"@
}

/// The lines of the top `k` ranks, rank 8 first.
pub open spec fn board_rows(prefix: Seq<char>, marks: Seq<Seq<char>>, k: nat) -> Seq<char>
    decreases k,
{
    if k == 0 {
        Seq::empty()
    } else {
        board_rows(prefix, marks, (k - 1) as nat) + rank_row(prefix, marks, 8 - k)
    }
}

/// The texts of a list of marks.
pub open spec fn mark_texts(marks: Seq<&str>) -> Seq<Seq<char>> {
    marks.map_values(|m: &str| m@)
}

/// Appends the eight rank lines of a board, rank 8 first, each square marked by its entry of
/// `marks`.
pub fn push_board_rows(text: &mut String, prefix: &str, marks: &Vec<&str>)
    requires
        marks@.len() == 64,
    ensures
        final(text)@ == old(text)@ + board_rows(prefix@, mark_texts(marks@), 8),
{
    let ghost views = mark_texts(marks@);
    let mut k: usize = 0;
    while k < 8
        invariant
            k <= 8,
            marks@.len() == 64,
            views == mark_texts(marks@),
            text@ == old(text)@ + board_rows(prefix@, views, k as nat),
        decreases 8 - k,
    {
        let rank = 7 - k;
        let ghost row_start = text@;
        text.append(prefix);
        text.append(digit_text((rank + 1) as u32));
        text.append(" |");
        let ghost cells_start = text@;
        let mut file: usize = 0;
        while file < 8
            invariant
                file <= 8,
                rank < 8,
                marks@.len() == 64,
                views == mark_texts(marks@),
                text@ == cells_start + cells_text(views, rank as int, file as nat),
            decreases 8 - file,
        {
            text.append(marks[rank * 8 + file]);
            file = file + 1;
        }
        text.append("\n");
        assert(text@ =~= row_start + rank_row(prefix@, views, rank as int));
        k = k + 1;
        assert(board_rows(prefix@, views, k as nat) == board_rows(prefix@, views, (k - 1) as nat) + rank_row(prefix@, views, 8 - k));
    }
}

// ============================================================================
// SQUARE NAMES
// ============================================================================

/// The letter of file `f` (0 for A).
pub open spec fn file_char(f: int) -> char {
    seq!['A', 'B', 'C', 'D', 'E', 'F', 'G', 'H'][f]
}

/// The name of a square: its file letter and its rank number, as `E4`.
pub open spec fn spec_square_name(idx: int) -> Seq<char> {
    seq![file_char(idx % 8), digit_char(idx / 8 + 1)]
}

/// The one-letter text of file `f`.
fn file_text(f: u8) -> (r: &'static str)
    requires
        f < 8,
    ensures
        r@ == seq![file_char(f as int)],
{
    proof {
        reveal_strlit("A");
        reveal_strlit("B");
        reveal_strlit("C");
        reveal_strlit("D");
        reveal_strlit("E");
        reveal_strlit("F");
        reveal_strlit("G");
        reveal_strlit("H");
    }
    match f {
        0 => "A",
        1 => "B",
        2 => "C",
        3 => "D",
        4 => "E",
        5 => "F",
        6 => "G",
        _ => "H",
    }
}

/// The name of square `idx`, as `E4`.
pub fn square_name(idx: u8) -> (r: String)
    requires
        idx < 64,
    ensures
        r@ == spec_square_name(idx as int),
{
    let mut text = String::new();
    text.append(file_text(idx % 8));
    text.append(digit_text((idx / 8 + 1) as u32));
    assert(text@ =~= spec_square_name(idx as int));
    text
}

} // verus!
