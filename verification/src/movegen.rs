use vstd::prelude::*;
use crate::bitboard::{group_bits, bit_set, Bitboard, word_of, lemma_word_of};

verus! {

broadcast use group_bits;

// ============================================================================
// BOARD GEOMETRY
// ============================================================================
//
// Square `s` lies on file `s % 8` (A..H, left to right) and rank `s / 8` (1..8, bottom to top).
// North is towards higher ranks, east towards higher files.

/// Whether the file/rank pair lies on the 8x8 board.
pub open spec fn on_board(f: int, r: int) -> bool {
    0 <= f < 8 && 0 <= r < 8
}

/// The square index of a file/rank pair.
pub open spec fn sq(f: int, r: int) -> int {
    r * 8 + f
}

/// File of a square.
pub open spec fn file_of(s: int) -> int {
    s % 8
}

/// Rank of a square.
pub open spec fn rank_of(s: int) -> int {
    s / 8
}

/// Whether the square at the file/rank pair is on the board and holds no piece of `occ`.
pub open spec fn free_at(occ: u64, f: int, r: int) -> bool {
    on_board(f, r) && !bit_set(occ, sq(f, r) as u64)
}

/// File step of the cardinal direction `d` (0 = north, 1 = east, 2 = south, 3 = west,
/// taken modulo 4).
pub open spec fn card_f(d: int) -> int {
    if d % 4 == 1 {
        1
    } else if d % 4 == 3 {
        -1
    } else {
        0
    }
}

/// Rank step of the cardinal direction `d` (taken modulo 4).
pub open spec fn card_r(d: int) -> int {
    if d % 4 == 0 {
        1
    } else if d % 4 == 2 {
        -1
    } else {
        0
    }
}

// ============================================================================
// DIAGONAL JUMPS
// ============================================================================

/// Walking from (f, r) by (df, dr): the first square that holds no allied piece, stepping over
/// allied pieces; `None` once the walk leaves the board.
pub open spec fn diag_walk(allies: u64, f: int, r: int, df: int, dr: int, fuel: nat) -> Option<
    int,
>
    decreases fuel,
{
    if fuel == 0 || !on_board(f, r) {
        None
    } else if bit_set(allies, sq(f, r) as u64) {
        diag_walk(allies, f + df, r + dr, df, dr, (fuel - 1) as nat)
    } else {
        Some(sq(f, r))
    }
}

/// The landing square of a diagonal jump from `s` in direction (df, dr): the piece jumps over
/// an unbroken chain of one or more allied pieces starting right next to it and lands on the
/// first square past the chain (empty or enemy-held). `None` when the neighbour is not allied
/// or the chain runs off the board.
pub open spec fn diag_landing(allies: u64, s: int, df: int, dr: int) -> Option<int> {
    let f = file_of(s) + df;
    let r = rank_of(s) + dr;
    if on_board(f, r) && bit_set(allies, sq(f, r) as u64) {
        diag_walk(allies, f + df, r + dr, df, dr, 7)
    } else {
        None
    }
}

/// Whether a diagonal jump takes the piece on `s` to `t`.
pub open spec fn diag_reaches(allies: u64, s: int, t: int) -> bool {
    ||| diag_landing(allies, s, 1, 1) == Some(t)
    ||| diag_landing(allies, s, -1, 1) == Some(t)
    ||| diag_landing(allies, s, 1, -1) == Some(t)
    ||| diag_landing(allies, s, -1, -1) == Some(t)
}

/// The coordinate `i` steps from `x` in steps of `dx`.
pub open spec fn stepped(x: int, dx: int, i: int) -> int {
    x + i * dx
}

/// Every one of the first `i` squares of the line from (f, r) in direction (df, dr), the
/// start included, lies on the board and holds an allied piece.
pub open spec fn chain_of(allies: u64, f: int, r: int, df: int, dr: int, i: int) -> bool {
    forall|j: int|
        0 <= j < i ==> #[trigger] allied_on(allies, stepped(f, df, j), stepped(r, dr, j))
}

/// The square (f, r) lies on the board and holds an allied piece.
pub open spec fn allied_on(allies: u64, f: int, r: int) -> bool {
    on_board(f, r) && bit_set(allies, sq(f, r) as u64)
}

/// The line seen from one step further.
proof fn lemma_stepped_shift(x: int, dx: int, i: int)
    ensures
        stepped(x + dx, dx, i) == stepped(x, dx, i + 1),
        stepped(x, dx, 0) == x,
{
    assert(x + dx + i * dx == x + (i + 1) * dx) by (nonlinear_arith);
}

/// The walk stops on the first square of the line that is on the board and holds no allied
/// piece, after an allied chain; it finds nothing when the chain runs off the board or the
/// fuel runs out.
#[verifier::spinoff_prover]
proof fn lemma_walk_law(allies: u64, f: int, r: int, df: int, dr: int, fuel: nat, t: int)
    ensures
        diag_walk(allies, f, r, df, dr, fuel) == Some(t) <==> exists|i: int|
            #![trigger stepped(f, df, i), stepped(r, dr, i)]
            0 <= i < fuel && chain_of(allies, f, r, df, dr, i) && on_board(stepped(f, df, i), stepped(r, dr, i))
                && !bit_set(allies, sq(stepped(f, df, i), stepped(r, dr, i)) as u64) && t == sq(
                stepped(f, df, i),
                stepped(r, dr, i),
            ),
    decreases fuel,
{
    lemma_stepped_shift(f, df, 0);
    lemma_stepped_shift(r, dr, 0);
    if fuel == 0 {
    } else if !on_board(f, r) {
        assert forall|i: int| 0 < i && #[trigger] chain_of(allies, f, r, df, dr, i) implies false by {
            assert(allied_on(allies, stepped(f, df, 0), stepped(r, dr, 0)));
        }
    } else if bit_set(allies, sq(f, r) as u64) {
        lemma_walk_law(allies, f + df, r + dr, df, dr, (fuel - 1) as nat, t);
        assert forall|i: int| 0 <= i implies #[trigger] chain_of(allies, f, r, df, dr, i + 1) == chain_of(
            allies,
            f + df,
            r + dr,
            df,
            dr,
            i,
        ) && stepped(f + df, df, i) == stepped(f, df, i + 1) && stepped(r + dr, dr, i) == stepped(r, dr, i + 1) by {
            lemma_stepped_shift(f, df, i);
            lemma_stepped_shift(r, dr, i);
            assert forall|j: int| 0 <= j < i implies #[trigger] allied_on(allies, stepped(f + df, df, j), stepped(r + dr, dr, j))
                == allied_on(allies, stepped(f, df, j + 1), stepped(r, dr, j + 1)) by {
                lemma_stepped_shift(f, df, j);
                lemma_stepped_shift(r, dr, j);
            }
            if chain_of(allies, f + df, r + dr, df, dr, i) {
                assert forall|j: int| 0 <= j < i + 1 implies #[trigger] allied_on(allies, stepped(f, df, j), stepped(r, dr, j)) by {
                    if j > 0 {
                        assert(allied_on(allies, stepped(f + df, df, j - 1), stepped(r + dr, dr, j - 1)));
                    }
                }
            }
            if chain_of(allies, f, r, df, dr, i + 1) {
                assert forall|j: int| 0 <= j < i implies #[trigger] allied_on(allies, stepped(f + df, df, j), stepped(r + dr, dr, j)) by {
                    assert(allied_on(allies, stepped(f, df, j + 1), stepped(r, dr, j + 1)));
                }
            }
        }
        if diag_walk(allies, f, r, df, dr, fuel) == Some(t) {
            let i = choose|i: int|
                #![trigger stepped(f + df, df, i), stepped(r + dr, dr, i)]
                0 <= i < fuel - 1 && chain_of(allies, f + df, r + dr, df, dr, i) && on_board(
                    stepped(f + df, df, i),
                    stepped(r + dr, dr, i),
                ) && !bit_set(allies, sq(stepped(f + df, df, i), stepped(r + dr, dr, i)) as u64) && t == sq(
                    stepped(f + df, df, i),
                    stepped(r + dr, dr, i),
                );
            assert(chain_of(allies, f, r, df, dr, i + 1));
            assert(stepped(f, df, i + 1) == stepped(f + df, df, i));
            assert(stepped(r, dr, i + 1) == stepped(r + dr, dr, i));
        }
        if exists|i: int|
            #![trigger stepped(f, df, i), stepped(r, dr, i)]
            0 <= i < fuel && chain_of(allies, f, r, df, dr, i) && on_board(stepped(f, df, i), stepped(r, dr, i))
                && !bit_set(allies, sq(stepped(f, df, i), stepped(r, dr, i)) as u64) && t == sq(
                stepped(f, df, i),
                stepped(r, dr, i),
            ) {
            let i = choose|i: int|
                #![trigger stepped(f, df, i), stepped(r, dr, i)]
                0 <= i < fuel && chain_of(allies, f, r, df, dr, i) && on_board(stepped(f, df, i), stepped(r, dr, i))
                    && !bit_set(allies, sq(stepped(f, df, i), stepped(r, dr, i)) as u64) && t == sq(
                    stepped(f, df, i),
                    stepped(r, dr, i),
                );
            assert(i != 0);
            let i1 = i - 1;
            assert(chain_of(allies, f, r, df, dr, i1 + 1));
            assert(chain_of(allies, f + df, r + dr, df, dr, i1));
            assert(stepped(f + df, df, i1) == stepped(f, df, i));
            assert(stepped(r + dr, dr, i1) == stepped(r, dr, i));
        }
    } else {
        assert forall|i: int| 0 < i && #[trigger] chain_of(allies, f, r, df, dr, i) implies false by {
            assert(allied_on(allies, stepped(f, df, 0), stepped(r, dr, 0)));
        }
        assert(chain_of(allies, f, r, df, dr, 0));
        assert(stepped(f, df, 0) == f && stepped(r, dr, 0) == r);
    }
}

/// A diagonal jump from `s` in direction (df, dr) lands on `t` exactly when `t` lies `m >= 2`
/// steps along that diagonal (`m <= 8`), every square strictly between holds an allied piece,
/// and `t` is on the board and holds none: the piece jumps a whole unbroken chain, never
/// slides a single step onto an empty square.
#[verifier::spinoff_prover]
pub proof fn lemma_diagonal_jump_law(allies: u64, s: int, df: int, dr: int, t: int)
    requires
        0 <= s < 64,
        df == 1 || df == -1,
        dr == 1 || dr == -1,
    ensures
        diag_landing(allies, s, df, dr) == Some(t) <==> exists|m: int|
            #![trigger stepped(file_of(s), df, m), stepped(rank_of(s), dr, m)]
            2 <= m <= 8 && chain_of(allies, file_of(s) + df, rank_of(s) + dr, df, dr, m - 1) && on_board(
                stepped(file_of(s), df, m),
                stepped(rank_of(s), dr, m),
            ) && !bit_set(allies, sq(stepped(file_of(s), df, m), stepped(rank_of(s), dr, m)) as u64) && t == sq(
                stepped(file_of(s), df, m),
                stepped(rank_of(s), dr, m),
            ),
{
    let f = file_of(s);
    let r = rank_of(s);
    let f1 = f + df;
    let r1 = r + dr;
    lemma_walk_law(allies, f1 + df, r1 + dr, df, dr, 7, t);
    lemma_stepped_shift(f1, df, 0);
    lemma_stepped_shift(r1, dr, 0);
    // chains from the first neighbour: its first square, then those from the second
    assert forall|i: int| 0 <= i implies #[trigger] chain_of(allies, f1, r1, df, dr, i + 1) == (allied_on(allies, f1, r1)
        && chain_of(allies, f1 + df, r1 + dr, df, dr, i)) by {
        assert forall|j: int| 0 <= j < i implies #[trigger] allied_on(allies, stepped(f1 + df, df, j), stepped(r1 + dr, dr, j))
            == allied_on(allies, stepped(f1, df, j + 1), stepped(r1, dr, j + 1)) by {
            lemma_stepped_shift(f1, df, j);
            lemma_stepped_shift(r1, dr, j);
        }
        if allied_on(allies, f1, r1) && chain_of(allies, f1 + df, r1 + dr, df, dr, i) {
            assert forall|j: int| 0 <= j < i + 1 implies #[trigger] allied_on(allies, stepped(f1, df, j), stepped(r1, dr, j)) by {
                if j > 0 {
                    assert(allied_on(allies, stepped(f1 + df, df, j - 1), stepped(r1 + dr, dr, j - 1)));
                }
            }
        }
        if chain_of(allies, f1, r1, df, dr, i + 1) {
            assert(allied_on(allies, stepped(f1, df, 0), stepped(r1, dr, 0)));
            assert forall|j: int| 0 <= j < i implies #[trigger] allied_on(allies, stepped(f1 + df, df, j), stepped(r1 + dr, dr, j)) by {
                assert(allied_on(allies, stepped(f1, df, j + 1), stepped(r1, dr, j + 1)));
            }
        }
    }
    assert forall|i: int| #![trigger stepped(f1 + df, df, i)] true implies stepped(f1 + df, df, i) == stepped(f, df, i + 2) by {
        assert(f1 + df + i * df == f + (i + 2) * df) by (nonlinear_arith)
            requires
                f1 == f + df,
        ;
    }
    assert forall|i: int| #![trigger stepped(r1 + dr, dr, i)] true implies stepped(r1 + dr, dr, i) == stepped(r, dr, i + 2) by {
        assert(r1 + dr + i * dr == r + (i + 2) * dr) by (nonlinear_arith)
            requires
                r1 == r + dr,
        ;
    }
    if diag_landing(allies, s, df, dr) == Some(t) {
        assert(allied_on(allies, f1, r1));
        let i = choose|i: int|
            #![trigger stepped(f1 + df, df, i), stepped(r1 + dr, dr, i)]
            0 <= i < 7 && chain_of(allies, f1 + df, r1 + dr, df, dr, i) && on_board(
                stepped(f1 + df, df, i),
                stepped(r1 + dr, dr, i),
            ) && !bit_set(allies, sq(stepped(f1 + df, df, i), stepped(r1 + dr, dr, i)) as u64) && t == sq(
                stepped(f1 + df, df, i),
                stepped(r1 + dr, dr, i),
            );
        assert(chain_of(allies, f1, r1, df, dr, i + 1));
        assert(stepped(f1 + df, df, i) == stepped(f, df, i + 2));
        assert(stepped(r1 + dr, dr, i) == stepped(r, dr, i + 2));
    }
    if exists|m: int|
        #![trigger stepped(f, df, m), stepped(r, dr, m)]
        2 <= m <= 8 && chain_of(allies, f1, r1, df, dr, m - 1) && on_board(stepped(f, df, m), stepped(r, dr, m))
            && !bit_set(allies, sq(stepped(f, df, m), stepped(r, dr, m)) as u64) && t == sq(
            stepped(f, df, m),
            stepped(r, dr, m),
        ) {
        let m = choose|m: int|
            #![trigger stepped(f, df, m), stepped(r, dr, m)]
            2 <= m <= 8 && chain_of(allies, f1, r1, df, dr, m - 1) && on_board(stepped(f, df, m), stepped(r, dr, m))
                && !bit_set(allies, sq(stepped(f, df, m), stepped(r, dr, m)) as u64) && t == sq(
                stepped(f, df, m),
                stepped(r, dr, m),
            );
        let i = m - 2;
        assert(chain_of(allies, f1, r1, df, dr, i + 1));
        assert(allied_on(allies, f1, r1));
        assert(chain_of(allies, f1 + df, r1 + dr, df, dr, i));
        assert(stepped(f1 + df, df, i) == stepped(f, df, m));
        assert(stepped(r1 + dr, dr, i) == stepped(r, dr, m));
        if i == 7 {
            // eight steps along a diagonal leave the board
            assert(false);
        }
    }
}

// ============================================================================
// PIVOT ROTATIONS
// ============================================================================

/// The cardinal neighbour of the pivot (pf, pr) in direction `d` is free.
pub open spec fn card_free(occ: u64, pf: int, pr: int, d: int) -> bool {
    free_at(occ, pf + card_f(d), pr + card_r(d))
}

/// The diagonal corner of the pivot between directions `d` and `d + 1` is free.
pub open spec fn corner_free(occ: u64, pf: int, pr: int, d: int) -> bool {
    free_at(occ, pf + card_f(d) + card_f(d + 1), pr + card_r(d) + card_r(d + 1))
}

/// A piece in direction `a` of the pivot can swing `n` quarter turns clockwise: every corner it
/// crosses and every cardinal square it passes through is on the board and empty.
pub open spec fn can_sweep_cw(occ: u64, pf: int, pr: int, a: int, n: int) -> bool {
    &&& corner_free(occ, pf, pr, a)
    &&& n >= 2 ==> card_free(occ, pf, pr, a + 1) && corner_free(occ, pf, pr, a + 1)
    &&& n >= 3 ==> card_free(occ, pf, pr, a + 2) && corner_free(occ, pf, pr, a + 2)
}

/// A piece in direction `a` of the pivot can swing `n` quarter turns counter-clockwise.
pub open spec fn can_sweep_ccw(occ: u64, pf: int, pr: int, a: int, n: int) -> bool {
    &&& corner_free(occ, pf, pr, a + 3)
    &&& n >= 2 ==> card_free(occ, pf, pr, a + 3) && corner_free(occ, pf, pr, a + 2)
    &&& n >= 3 ==> card_free(occ, pf, pr, a + 2) && corner_free(occ, pf, pr, a + 1)
}

/// `t` is the pivot's cardinal neighbour in direction `d`, on the board.
pub open spec fn lands_at(pf: int, pr: int, d: int, t: int) -> bool {
    on_board(pf + card_f(d), pr + card_r(d)) && t == sq(pf + card_f(d), pr + card_r(d))
}

/// A piece in direction `a` of the pivot (pf, pr) swings 90, 180 or 270 degrees, either way,
/// onto `t`.
pub open spec fn rotation_reaches(occ: u64, pf: int, pr: int, a: int, t: int) -> bool {
    ||| can_sweep_cw(occ, pf, pr, a, 1) && lands_at(pf, pr, a + 1, t)
    ||| can_sweep_cw(occ, pf, pr, a, 2) && lands_at(pf, pr, a + 2, t)
    ||| can_sweep_cw(occ, pf, pr, a, 3) && lands_at(pf, pr, a + 3, t)
    ||| can_sweep_ccw(occ, pf, pr, a, 1) && lands_at(pf, pr, a + 3, t)
    ||| can_sweep_ccw(occ, pf, pr, a, 2) && lands_at(pf, pr, a + 2, t)
    ||| can_sweep_ccw(occ, pf, pr, a, 3) && lands_at(pf, pr, a + 1, t)
}

/// The piece on `s` rotates around the allied pivot in direction `b` of it onto `t`.
pub open spec fn pivot_reaches(allies: u64, occ: u64, s: int, b: int, t: int) -> bool {
    let pf = file_of(s) + card_f(b);
    let pr = rank_of(s) + card_r(b);
    &&& on_board(pf, pr)
    &&& bit_set(allies, sq(pf, pr) as u64)
    &&& rotation_reaches(occ, pf, pr, b + 2, t)
}

/// The piece on `s` rotates around some orthogonally adjacent allied pivot onto `t`.
pub open spec fn rot_reaches(allies: u64, occ: u64, s: int, t: int) -> bool {
    ||| pivot_reaches(allies, occ, s, 0, t)
    ||| pivot_reaches(allies, occ, s, 1, t)
    ||| pivot_reaches(allies, occ, s, 2, t)
    ||| pivot_reaches(allies, occ, s, 3, t)
}

/// Whether the piece on `s` can move to `t` by either movement rule, with `allies` and
/// `enemies` on the board (both block rotations).
pub open spec fn piece_reaches(allies: u64, enemies: u64, s: int, t: int) -> bool {
    diag_reaches(allies, s, t) || rot_reaches(allies, allies | enemies, s, t)
}

/// Whether the word `m` holds exactly the move mask of the piece on `s`.
pub open spec fn is_move_mask(m: u64, allies: u64, enemies: u64, s: int, control_eval: bool) -> bool {
    forall|t: u64| t < 64 ==> bit_set(m, t) == piece_target(allies, enemies, s, t as int, control_eval)
}

/// The move mask of the piece on `s`, as a word.
pub open spec fn move_mask(allies: u64, enemies: u64, s: int, control_eval: bool) -> u64 {
    word_of(|t: u64| piece_target(allies, enemies, s, t as int, control_eval), 64)
}

/// `move_mask` holds exactly the move mask.
pub proof fn lemma_move_mask(allies: u64, enemies: u64, s: int, control_eval: bool)
    ensures
        is_move_mask(move_mask(allies, enemies, s, control_eval), allies, enemies, s, control_eval),
{
    lemma_word_of(|t: u64| piece_target(allies, enemies, s, t as int, control_eval), 64);
}

/// The squares in the move mask of the piece on `s`: the squares it reaches, without those
/// holding allied pieces unless the mask is a control map.
pub open spec fn piece_target(allies: u64, enemies: u64, s: int, t: int, control_eval: bool) -> bool {
    piece_reaches(allies, enemies, s, t) && (control_eval || !bit_set(allies, t as u64))
}

// ============================================================================
// THE SWEEP OF A ROTATION
// ============================================================================

/// File offset of the `i`-th of the eight squares around a pivot, counted clockwise from the
/// north neighbour (taken modulo 8): N, NE, E, SE, S, SW, W, NW.
pub open spec fn ring_f(i: int) -> int {
    let k = i % 8;
    if k == 1 || k == 2 || k == 3 {
        1
    } else if k == 5 || k == 6 || k == 7 {
        -1
    } else {
        0
    }
}

/// Rank offset of the `i`-th square around a pivot (taken modulo 8).
pub open spec fn ring_r(i: int) -> int {
    let k = i % 8;
    if k == 7 || k == 0 || k == 1 {
        1
    } else if k == 3 || k == 4 || k == 5 {
        -1
    } else {
        0
    }
}

/// The `i`-th square around the pivot (pf, pr) is on the board and empty.
pub open spec fn ring_free(occ: u64, pf: int, pr: int, i: int) -> bool {
    free_at(occ, pf + ring_f(i), pr + ring_r(i))
}

/// Every square strictly between ring position `from` and ring position `from + dir * steps`,
/// walking around the pivot one square at a time in direction `dir` (1 clockwise, -1 counter-
/// clockwise), is on the board and empty.
pub open spec fn arc_clear(occ: u64, pf: int, pr: int, from: int, steps: int, dir: int) -> bool
    decreases steps,
{
    if steps <= 1 {
        true
    } else {
        arc_clear(occ, pf, pr, from, steps - 1, dir) && ring_free(occ, pf, pr, from + dir * (steps - 1))
    }
}

/// The clockwise sweep of `n` quarter turns from cardinal direction `a` crosses exactly the
/// arc of `2n - 1` squares clockwise from the piece.
#[verifier::spinoff_prover]
proof fn lemma_cw_arc(occ: u64, pf: int, pr: int, a: int, n: int)
    requires
        0 <= a < 8,
        1 <= n <= 3,
    ensures
        can_sweep_cw(occ, pf, pr, a, n) == arc_clear(occ, pf, pr, 2 * a, 2 * n, 1),
{
    lemma_ring_card(a);
    lemma_ring_card(a + 1);
    lemma_ring_card(a + 2);
    assert(2 * a + 1 * 1 == 2 * a + 1 && 2 * a + 1 * 2 == 2 * (a + 1) && 2 * a + 1 * 3 == 2 * (a + 1) + 1);
    assert(2 * a + 1 * 4 == 2 * (a + 2) && 2 * a + 1 * 5 == 2 * (a + 2) + 1);
    if n == 1 {
        reveal_with_fuel(arc_clear, 2);
    } else if n == 2 {
        reveal_with_fuel(arc_clear, 4);
    } else {
        reveal_with_fuel(arc_clear, 6);
    }
}

/// The counter-clockwise sweep of `n` quarter turns from cardinal direction `a` crosses
/// exactly the arc of `2n - 1` squares counter-clockwise from the piece.
#[verifier::spinoff_prover]
#[verifier::rlimit(40)]
proof fn lemma_ccw_arc(occ: u64, pf: int, pr: int, a: int, n: int)
    requires
        0 <= a < 8,
        1 <= n <= 3,
    ensures
        can_sweep_ccw(occ, pf, pr, a, n) == arc_clear(occ, pf, pr, 2 * a, 2 * n, -1),
{
    lemma_ring_card(a - 1);
    lemma_ring_card(a - 2);
    lemma_ring_card(a - 3);
    lemma_ring_card(a + 1);
    lemma_ring_card(a + 2);
    lemma_ring_card(a + 3);
    lemma_card_period(a - 1);
    lemma_card_period(a - 2);
    lemma_card_period(a - 3);
    lemma_card_period(a);
    assert(2 * a + -1 * 1 == 2 * (a - 1) + 1 && 2 * a + -1 * 2 == 2 * (a - 1) && 2 * a + -1 * 3 == 2 * (a - 2) + 1);
    assert(2 * a + -1 * 4 == 2 * (a - 2) && 2 * a + -1 * 5 == 2 * (a - 3) + 1);
    if n == 1 {
        reveal_with_fuel(arc_clear, 2);
    } else if n == 2 {
        reveal_with_fuel(arc_clear, 4);
    } else {
        reveal_with_fuel(arc_clear, 6);
    }
}

/// The cardinal steps repeat every four directions.
proof fn lemma_card_period(d: int)
    requires
        -4 <= d < 12,
    ensures
        card_f(d + 4) == card_f(d),
        card_r(d + 4) == card_r(d),
{
    assert((d + 4) % 4 == d % 4);
}

/// The even squares around a pivot are its cardinal neighbours, the odd ones its corners.
proof fn lemma_ring_card(d: int)
    requires
        -4 <= d < 12,
    ensures
        ring_f(2 * d) == card_f(d),
        ring_r(2 * d) == card_r(d),
        ring_f(2 * d + 1) == card_f(d) + card_f(d + 1),
        ring_r(2 * d + 1) == card_r(d) + card_r(d + 1),
{
    if -4 <= d < 0 {
        assert((2 * d) % 8 == 2 * (d + 4) && (2 * d + 1) % 8 == 2 * (d + 4) + 1);
        assert(d % 4 == d + 4 && (d + 1) % 4 == (d + 5) % 4);
    } else if d < 4 {
        assert((2 * d) % 8 == 2 * d && (2 * d + 1) % 8 == 2 * d + 1);
        assert(d % 4 == d);
    } else if d < 8 {
        assert((2 * d) % 8 == 2 * (d - 4) && (2 * d + 1) % 8 == 2 * (d - 4) + 1);
        assert(d % 4 == d - 4);
    } else {
        assert((2 * d) % 8 == 2 * (d - 8) && (2 * d + 1) % 8 == 2 * (d - 8) + 1);
        assert(d % 4 == d - 8);
    }
}

/// The pivot's cardinal neighbour `k` quarter turns clockwise from direction `a` is the
/// landing square of no other turn.
proof fn lemma_landing_unique(pf: int, pr: int, a: int, k: int, d: int, t: int)
    requires
        0 <= a < 8,
        1 <= k <= 3,
        1 <= d <= 3,
        on_board(pf + ring_f(2 * a + 2 * k), pr + ring_r(2 * a + 2 * k)),
        t == sq(pf + ring_f(2 * a + 2 * k), pr + ring_r(2 * a + 2 * k)),
    ensures
        lands_at(pf, pr, a + d, t) == (d == k),
{
    if a == 0 {
    } else if a == 1 {
    } else if a == 2 {
    } else if a == 3 {
    } else if a == 4 {
    } else if a == 5 {
    } else if a == 6 {
    } else {
    }
}

/// A piece next to the pivot (pf, pr) in cardinal direction `a` reaches the pivot's cardinal
/// neighbour `k` quarter turns further clockwise exactly when one of the two arcs between them
/// is clear: the `2k - 1` squares it sweeps turning clockwise, or the `7 - 2k` squares it
/// sweeps turning counter-clockwise. Every square the piece passes through, corner or side,
/// must be empty; only the landing square may hold a piece.
#[verifier::spinoff_prover]
pub proof fn lemma_rotation_sweeps(occ: u64, pf: int, pr: int, a: int, k: int, t: int)
    requires
        0 <= a < 8,
        1 <= k <= 3,
        on_board(pf + ring_f(2 * a + 2 * k), pr + ring_r(2 * a + 2 * k)),
        t == sq(pf + ring_f(2 * a + 2 * k), pr + ring_r(2 * a + 2 * k)),
    ensures
        rotation_reaches(occ, pf, pr, a, t) <==> (arc_clear(occ, pf, pr, 2 * a, 2 * k, 1) || arc_clear(
            occ,
            pf,
            pr,
            2 * a,
            8 - 2 * k,
            -1,
        )),
{
    lemma_landing_unique(pf, pr, a, k, 1, t);
    lemma_landing_unique(pf, pr, a, k, 2, t);
    lemma_landing_unique(pf, pr, a, k, 3, t);
    lemma_cw_arc(occ, pf, pr, a, k);
    lemma_ccw_arc(occ, pf, pr, a, 4 - k);
    assert(a + 3 == a + (4 - 1) && a + 1 == a + (4 - 3));
}

/// What a rotation from `s` through the pivot in direction `b` of it onto the cardinal
/// neighbour `k` quarter turns further clockwise needs: the pivot is on the board and holds an
/// allied piece, the landing square is on the board, and one of the two arcs between the
/// piece and the landing square is clear.
pub open spec fn swing_to(allies: u64, occ: u64, s: int, b: int, k: int, t: int) -> bool {
    let pf = file_of(s) + card_f(b);
    let pr = rank_of(s) + card_r(b);
    let a = b + 2;
    &&& allied_on(allies, pf, pr)
    &&& on_board(pf + ring_f(2 * a + 2 * k), pr + ring_r(2 * a + 2 * k))
    &&& t == sq(pf + ring_f(2 * a + 2 * k), pr + ring_r(2 * a + 2 * k))
    &&& (arc_clear(occ, pf, pr, 2 * a, 2 * k, 1) || arc_clear(occ, pf, pr, 2 * a, 8 - 2 * k, -1))
}

/// A piece rotates onto `t` exactly when some orthogonally adjacent square holds an allied
/// pivot, `t` is one of the pivot's other three cardinal neighbours, and the piece can swing
/// there one way or the other over empty squares only.
#[verifier::spinoff_prover]
#[verifier::rlimit(40)]
pub proof fn lemma_rotation_law(allies: u64, occ: u64, s: int, t: int)
    requires
        0 <= s < 64,
    ensures
        rot_reaches(allies, occ, s, t) <==> exists|b: int, k: int|
            0 <= b < 4 && 1 <= k <= 3 && #[trigger] swing_to(allies, occ, s, b, k, t),
{
    assert forall|b: int| 0 <= b < 4 implies #[trigger] pivot_reaches(allies, occ, s, b, t) <==> (swing_to(
        allies,
        occ,
        s,
        b,
        1,
        t,
    ) || swing_to(allies, occ, s, b, 2, t) || swing_to(allies, occ, s, b, 3, t)) by {
        let pf = file_of(s) + card_f(b);
        let pr = rank_of(s) + card_r(b);
        let a = b + 2;
        lemma_ring_card(a + 1);
        lemma_ring_card(a + 2);
        lemma_ring_card(a + 3);
        assert(2 * (a + 1) == 2 * a + 2 * 1 && 2 * (a + 2) == 2 * a + 2 * 2 && 2 * (a + 3) == 2 * a + 2 * 3);
        if on_board(pf + ring_f(2 * a + 2), pr + ring_r(2 * a + 2)) {
            lemma_rotation_sweeps(occ, pf, pr, a, 1, sq(pf + ring_f(2 * a + 2), pr + ring_r(2 * a + 2)));
        }
        if on_board(pf + ring_f(2 * a + 4), pr + ring_r(2 * a + 4)) {
            lemma_rotation_sweeps(occ, pf, pr, a, 2, sq(pf + ring_f(2 * a + 4), pr + ring_r(2 * a + 4)));
        }
        if on_board(pf + ring_f(2 * a + 6), pr + ring_r(2 * a + 6)) {
            lemma_rotation_sweeps(occ, pf, pr, a, 3, sq(pf + ring_f(2 * a + 6), pr + ring_r(2 * a + 6)));
        }
    }
    if rot_reaches(allies, occ, s, t) {
        let b: int = if pivot_reaches(allies, occ, s, 0, t) {
            0
        } else if pivot_reaches(allies, occ, s, 1, t) {
            1
        } else if pivot_reaches(allies, occ, s, 2, t) {
            2
        } else {
            3
        };
        assert(pivot_reaches(allies, occ, s, b, t));
        if swing_to(allies, occ, s, b, 1, t) {
        } else if swing_to(allies, occ, s, b, 2, t) {
        } else {
            assert(swing_to(allies, occ, s, b, 3, t));
        }
    }
    if exists|b: int, k: int| 0 <= b < 4 && 1 <= k <= 3 && #[trigger] swing_to(allies, occ, s, b, k, t) {
        let (b, k) = choose|b: int, k: int| 0 <= b < 4 && 1 <= k <= 3 && #[trigger] swing_to(allies, occ, s, b, k, t);
        assert(pivot_reaches(allies, occ, s, b, t));
    }
}

/// A diagonal jump from `s`, `m` steps in direction (df, dr), onto `t`: every square strictly
/// between holds an allied piece and `t` is on the board and holds none.
pub open spec fn jump_to(allies: u64, s: int, df: int, dr: int, m: int, t: int) -> bool {
    &&& df == 1 || df == -1
    &&& dr == 1 || dr == -1
    &&& 2 <= m <= 8
    &&& chain_of(allies, file_of(s) + df, rank_of(s) + dr, df, dr, m - 1)
    &&& on_board(stepped(file_of(s), df, m), stepped(rank_of(s), dr, m))
    &&& !bit_set(allies, sq(stepped(file_of(s), df, m), stepped(rank_of(s), dr, m)) as u64)
    &&& t == sq(stepped(file_of(s), df, m), stepped(rank_of(s), dr, m))
}

/// The move mask of the piece on `s` holds `t` exactly when the piece jumps a diagonal chain of
/// allied pieces onto `t`, or swings around an allied pivot onto `t` over empty squares (both
/// sides' pieces block a swing), and, unless the mask is a control map, `t` holds no allied
/// piece.
#[verifier::spinoff_prover]
#[verifier::rlimit(40)]
pub proof fn lemma_move_mask_law(allies: u64, enemies: u64, s: int, t: u64, control_eval: bool)
    requires
        0 <= s < 64,
        t < 64,
    ensures
        bit_set(move_mask(allies, enemies, s, control_eval), t) <==> ((exists|df: int, dr: int, m: int|
            #[trigger] jump_to(allies, s, df, dr, m, t as int)) || (exists|b: int, k: int|
            0 <= b < 4 && 1 <= k <= 3 && #[trigger] swing_to(allies, allies | enemies, s, b, k, t as int)))
            && (control_eval || !bit_set(allies, t)),
{
    lemma_move_mask(allies, enemies, s, control_eval);
    lemma_rotation_law(allies, allies | enemies, s, t as int);
    lemma_diagonal_jump_law(allies, s, 1, 1, t as int);
    lemma_diagonal_jump_law(allies, s, -1, 1, t as int);
    lemma_diagonal_jump_law(allies, s, 1, -1, t as int);
    lemma_diagonal_jump_law(allies, s, -1, -1, t as int);
    if exists|df: int, dr: int, m: int| #[trigger] jump_to(allies, s, df, dr, m, t as int) {
        let (df, dr, m) = choose|df: int, dr: int, m: int| #[trigger] jump_to(allies, s, df, dr, m, t as int);
        assert(diag_landing(allies, s, df, dr) == Some(t as int));
    }
    if diag_reaches(allies, s, t as int) {
        if diag_landing(allies, s, 1, 1) == Some(t as int) {
            let m = choose|m: int|
                #![trigger stepped(file_of(s), 1, m), stepped(rank_of(s), 1, m)]
                2 <= m <= 8 && chain_of(allies, file_of(s) + 1, rank_of(s) + 1, 1, 1, m - 1) && on_board(
                    stepped(file_of(s), 1, m),
                    stepped(rank_of(s), 1, m),
                ) && !bit_set(allies, sq(stepped(file_of(s), 1, m), stepped(rank_of(s), 1, m)) as u64) && t == sq(
                    stepped(file_of(s), 1, m),
                    stepped(rank_of(s), 1, m),
                );
            assert(jump_to(allies, s, 1, 1, m, t as int));
        } else if diag_landing(allies, s, -1, 1) == Some(t as int) {
            let m = choose|m: int|
                #![trigger stepped(file_of(s), -1, m), stepped(rank_of(s), 1, m)]
                2 <= m <= 8 && chain_of(allies, file_of(s) + -1, rank_of(s) + 1, -1, 1, m - 1) && on_board(
                    stepped(file_of(s), -1, m),
                    stepped(rank_of(s), 1, m),
                ) && !bit_set(allies, sq(stepped(file_of(s), -1, m), stepped(rank_of(s), 1, m)) as u64) && t == sq(
                    stepped(file_of(s), -1, m),
                    stepped(rank_of(s), 1, m),
                );
            assert(jump_to(allies, s, -1, 1, m, t as int));
        } else if diag_landing(allies, s, 1, -1) == Some(t as int) {
            let m = choose|m: int|
                #![trigger stepped(file_of(s), 1, m), stepped(rank_of(s), -1, m)]
                2 <= m <= 8 && chain_of(allies, file_of(s) + 1, rank_of(s) + -1, 1, -1, m - 1) && on_board(
                    stepped(file_of(s), 1, m),
                    stepped(rank_of(s), -1, m),
                ) && !bit_set(allies, sq(stepped(file_of(s), 1, m), stepped(rank_of(s), -1, m)) as u64) && t == sq(
                    stepped(file_of(s), 1, m),
                    stepped(rank_of(s), -1, m),
                );
            assert(jump_to(allies, s, 1, -1, m, t as int));
        } else {
            let m = choose|m: int|
                #![trigger stepped(file_of(s), -1, m), stepped(rank_of(s), -1, m)]
                2 <= m <= 8 && chain_of(allies, file_of(s) + -1, rank_of(s) + -1, -1, -1, m - 1) && on_board(
                    stepped(file_of(s), -1, m),
                    stepped(rank_of(s), -1, m),
                ) && !bit_set(allies, sq(stepped(file_of(s), -1, m), stepped(rank_of(s), -1, m)) as u64) && t == sq(
                    stepped(file_of(s), -1, m),
                    stepped(rank_of(s), -1, m),
                );
            assert(jump_to(allies, s, -1, -1, m, t as int));
        }
    }
}

// ============================================================================
// EXECUTABLE MOVE GENERATION
// ============================================================================

/// Whether the square at (f, r) is on the board and holds no piece of `occ`.
fn is_free(occ: u64, f: i32, r: i32) -> (b: bool)
    ensures
        b == free_at(occ, f as int, r as int),
{
    if 0 <= f && f < 8 && 0 <= r && r < 8 {
        let i = (r * 8 + f) as u64;
        assert(((occ >> i) & 1u64 == 0u64) == !((occ >> i) & 1u64 == 1u64)) by (bit_vector);
        (occ >> i) & 1 == 0
    } else {
        false
    }
}

/// Whether the square at (f, r) is on the board and holds a piece of `occ`.
fn is_set(occ: u64, f: i32, r: i32) -> (b: bool)
    ensures
        b == (on_board(f as int, r as int) && bit_set(occ, sq(f as int, r as int) as u64)),
{
    if 0 <= f && f < 8 && 0 <= r && r < 8 {
        let i = (r * 8 + f) as u64;
        assert(((occ >> i) & 1u64 == 1u64) == ((occ >> i) & 1u64 == 1u64));
        (occ >> i) & 1 == 1
    } else {
        false
    }
}

/// File step of the cardinal direction `d`.
fn cardinal_file(d: i32) -> (r: i32)
    requires
        0 <= d < 16,
    ensures
        r == card_f(d as int),
{
    let m = d % 4;
    if m == 1 {
        1
    } else if m == 3 {
        -1
    } else {
        0
    }
}

/// Rank step of the cardinal direction `d`.
fn cardinal_rank(d: i32) -> (r: i32)
    requires
        0 <= d < 16,
    ensures
        r == card_r(d as int),
{
    let m = d % 4;
    if m == 0 {
        1
    } else if m == 2 {
        -1
    } else {
        0
    }
}

/// The word with the square (f, r) when it is on the board, else the empty word.
fn square_bit(f: i32, r: i32) -> (m: u64)
    ensures
        forall|t: u64|
            t < 64 ==> bit_set(m, t) == (on_board(f as int, r as int) && t == sq(f as int, r as int)),
{
    if 0 <= f && f < 8 && 0 <= r && r < 8 {
        let i = (r * 8 + f) as u64;
        1u64 << i
    } else {
        0
    }
}

/// Whether the cardinal neighbour of the pivot in direction `d` is free.
fn cardinal_is_free(occ: u64, pf: i32, pr: i32, d: i32) -> (b: bool)
    requires
        on_board(pf as int, pr as int),
        0 <= d < 12,
    ensures
        b == card_free(occ, pf as int, pr as int, d as int),
{
    is_free(occ, pf + cardinal_file(d), pr + cardinal_rank(d))
}

/// Whether the corner of the pivot between directions `d` and `d + 1` is free.
fn corner_is_free(occ: u64, pf: i32, pr: i32, d: i32) -> (b: bool)
    requires
        on_board(pf as int, pr as int),
        0 <= d < 12,
    ensures
        b == corner_free(occ, pf as int, pr as int, d as int),
{
    is_free(occ, pf + cardinal_file(d) + cardinal_file(d + 1), pr + cardinal_rank(d) + cardinal_rank(d + 1))
}

/// The pivot's cardinal neighbour in direction `d`, as a word (empty when off the board).
fn landing_bit(pf: i32, pr: i32, d: i32) -> (m: u64)
    requires
        on_board(pf as int, pr as int),
        0 <= d < 12,
    ensures
        forall|t: u64| t < 64 ==> bit_set(m, t) == lands_at(pf as int, pr as int, d as int, t as int),
{
    square_bit(pf + cardinal_file(d), pr + cardinal_rank(d))
}

/// The squares reached by swinging clockwise around the pivot from direction `a`.
fn clockwise_mask(occ: u64, pf: i32, pr: i32, a: i32) -> (m: u64)
    requires
        on_board(pf as int, pr as int),
        0 <= a < 8,
    ensures
        forall|t: u64| t < 64 ==> bit_set(m, t) == (
            (can_sweep_cw(occ, pf as int, pr as int, a as int, 1) && lands_at(pf as int, pr as int, a + 1, t as int))
            || (can_sweep_cw(occ, pf as int, pr as int, a as int, 2) && lands_at(pf as int, pr as int, a + 2, t as int))
            || (can_sweep_cw(occ, pf as int, pr as int, a as int, 3) && lands_at(pf as int, pr as int, a + 3, t as int))),
{
    let s1 = corner_is_free(occ, pf, pr, a);
    let s2 = s1 && cardinal_is_free(occ, pf, pr, a + 1) && corner_is_free(occ, pf, pr, a + 1);
    let s3 = s2 && cardinal_is_free(occ, pf, pr, a + 2) && corner_is_free(occ, pf, pr, a + 2);
    let m1 = if s1 { landing_bit(pf, pr, a + 1) } else { 0 };
    let m2 = if s2 { landing_bit(pf, pr, a + 2) } else { 0 };
    let m3 = if s3 { landing_bit(pf, pr, a + 3) } else { 0 };
    m1 | m2 | m3
}

/// The squares reached by swinging counter-clockwise around the pivot from direction `a`.
fn counter_clockwise_mask(occ: u64, pf: i32, pr: i32, a: i32) -> (m: u64)
    requires
        on_board(pf as int, pr as int),
        0 <= a < 8,
    ensures
        forall|t: u64| t < 64 ==> bit_set(m, t) == (
            (can_sweep_ccw(occ, pf as int, pr as int, a as int, 1) && lands_at(pf as int, pr as int, a + 3, t as int))
            || (can_sweep_ccw(occ, pf as int, pr as int, a as int, 2) && lands_at(pf as int, pr as int, a + 2, t as int))
            || (can_sweep_ccw(occ, pf as int, pr as int, a as int, 3) && lands_at(pf as int, pr as int, a + 1, t as int))),
{
    let s1 = corner_is_free(occ, pf, pr, a + 3);
    let s2 = s1 && cardinal_is_free(occ, pf, pr, a + 3) && corner_is_free(occ, pf, pr, a + 2);
    let s3 = s2 && cardinal_is_free(occ, pf, pr, a + 2) && corner_is_free(occ, pf, pr, a + 1);
    let m1 = if s1 { landing_bit(pf, pr, a + 3) } else { 0 };
    let m2 = if s2 { landing_bit(pf, pr, a + 2) } else { 0 };
    let m3 = if s3 { landing_bit(pf, pr, a + 1) } else { 0 };
    m1 | m2 | m3
}

/// The squares the piece in direction `a` of the pivot (pf, pr) reaches by rotating.
fn pivot_rotation_mask(occ: u64, pf: i32, pr: i32, a: i32) -> (m: u64)
    requires
        on_board(pf as int, pr as int),
        0 <= a < 8,
    ensures
        forall|t: u64| t < 64 ==> bit_set(m, t) == rotation_reaches(occ, pf as int, pr as int, a as int, t as int),
{
    clockwise_mask(occ, pf, pr, a) | counter_clockwise_mask(occ, pf, pr, a)
}

/// The squares the piece on `s` reaches by rotating around the pivot in direction `b` of it.
fn pivot_mask(allies: u64, occ: u64, s: u8, b: i32) -> (m: u64)
    requires
        s < 64,
        0 <= b < 4,
    ensures
        forall|t: u64| t < 64 ==> bit_set(m, t) == pivot_reaches(allies, occ, s as int, b as int, t as int),
{
    let qf = (s % 8) as i32 + cardinal_file(b);
    let qr = (s / 8) as i32 + cardinal_rank(b);
    if is_set(allies, qf, qr) {
        pivot_rotation_mask(occ, qf, qr, b + 2)
    } else {
        0
    }
}

/// The landing square of a diagonal jump from `s` in direction (df, dr), if any.
fn diagonal_landing(allies: u64, s: u8, df: i32, dr: i32) -> (res: Option<u8>)
    requires
        s < 64,
        df == 1 || df == -1,
        dr == 1 || dr == -1,
    ensures
        res matches Some(t) ==> t < 64 && diag_landing(allies, s as int, df as int, dr as int) == Some(t as int),
        res is None ==> diag_landing(allies, s as int, df as int, dr as int) is None,
{
    let f0 = (s % 8) as i32 + df;
    let r0 = (s / 8) as i32 + dr;
    if !is_set(allies, f0, r0) {
        return None;
    }
    let mut f = f0 + df;
    let mut r = r0 + dr;
    let mut fuel: u32 = 7;
    while fuel > 0
        invariant
            df == 1 || df == -1,
            dr == 1 || dr == -1,
            -2 <= f <= 9,
            -2 <= r <= 9,
            fuel <= 7,
            diag_walk(allies, f as int, r as int, df as int, dr as int, fuel as nat) == diag_landing(
                allies,
                s as int,
                df as int,
                dr as int,
            ),
        decreases fuel,
    {
        if !(0 <= f && f < 8 && 0 <= r && r < 8) {
            return None;
        }
        if is_set(allies, f, r) {
            f = f + df;
            r = r + dr;
            fuel = fuel - 1;
        } else {
            return Some((r * 8 + f) as u8);
        }
    }
    None
}

/// The move mask of the piece on `piece_idx`: every square it reaches by a diagonal jump or
/// by rotating around an orthogonally adjacent allied pivot. Squares holding allied pieces are
/// left out unless `control_eval` asks for the full control map.
pub fn generate_piece_moves(
    piece_idx: u8,
    allied_pieces: Bitboard,
    enemy_pieces: Bitboard,
    control_eval: bool,
) -> (r: Bitboard)
    requires
        piece_idx < 64,
    ensures
        is_move_mask(r.0, allied_pieces.0, enemy_pieces.0, piece_idx as int, control_eval),
        r.0 == move_mask(allied_pieces.0, enemy_pieces.0, piece_idx as int, control_eval),
{
    let allies = allied_pieces.0;
    let occ = allies | enemy_pieces.0;
    let mut diag: u64 = 0;
    let mut k: usize = 0;
    while k < 4
        invariant
            k <= 4,
            piece_idx < 64,
            forall|t: u64| t < 64 ==> bit_set(diag, t) == (
                (k > 0 && diag_landing(allies, piece_idx as int, 1, 1) == Some(t as int))
                || (k > 1 && diag_landing(allies, piece_idx as int, -1, 1) == Some(t as int))
                || (k > 2 && diag_landing(allies, piece_idx as int, 1, -1) == Some(t as int))
                || (k > 3 && diag_landing(allies, piece_idx as int, -1, -1) == Some(t as int))),
        decreases 4 - k,
    {
        let df: i32 = if k == 0 || k == 2 { 1 } else { -1 };
        let dr: i32 = if k < 2 { 1 } else { -1 };
        match diagonal_landing(allies, piece_idx, df, dr) {
            Some(t) => {
                diag = diag | (1u64 << t);
            },
            None => {},
        }
        k = k + 1;
    }
    let rot = pivot_mask(allies, occ, piece_idx, 0) | pivot_mask(allies, occ, piece_idx, 1)
        | pivot_mask(allies, occ, piece_idx, 2) | pivot_mask(allies, occ, piece_idx, 3);
    let all = diag | rot;
    let r = if control_eval {
        Bitboard(all)
    } else {
        Bitboard(all & !allies)
    };
    proof {
        let m = move_mask(allies, enemy_pieces.0, piece_idx as int, control_eval);
        lemma_move_mask(allies, enemy_pieces.0, piece_idx as int, control_eval);
        assert(is_move_mask(r.0, allies, enemy_pieces.0, piece_idx as int, control_eval));
        assert(is_move_mask(m, allies, enemy_pieces.0, piece_idx as int, control_eval));
        crate::bitboard::lemma_bits_ext(r.0, m);
    }
    r
}

} // verus!
