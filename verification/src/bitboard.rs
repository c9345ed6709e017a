//! The packed board representation: one bit per cell in a 128-bit word.
//!
//! Cell `(sr, sc, cr, cc)` occupies bit `27*sr + 9*cr + 3*sc + cc`: three
//! contiguous bits form a sub-row, nine contiguous bits form one full row
//! of the 9x9 grid.  Win detection shifts a player's mask against itself so
//! that a complete line leaves a one in a known position, and the same
//! patterns, re-applied at wider strides, test super-board lines.  The last
//! move is kept as a single bit in the corner position of the forced
//! subboard.  Every operation's contract is stated against the decoded
//! [`BoardModel`], so the packed board provably agrees with the
//! straightforward one.

use vstd::prelude::*;

use crate::board::{cell_index, coords_of, turn_of, Board, BoardModel};
use crate::minmax::{GameState, Heuristic};
use crate::player::{Player, Tile};

verus! {

/// The bit index of cell `(sr, sc, cr, cc)`.
pub open spec fn bit_pos(sr: int, sc: int, cr: int, cc: int) -> int {
    27 * sr + 9 * cr + 3 * sc + cc
}

/// The corner bit of subboard `(sr, sc)`: the bit of its cell `(2, 2)`,
/// where aggregated subboard facts and the last-move mark are kept.
pub open spec fn corner_pos(sr: int, sc: int) -> int {
    27 * sr + 3 * sc + 20
}

/// Bit `i` of `m` is set.
pub open spec fn bit(m: u128, i: int) -> bool {
    0 <= i < 128 && (m >> (i as u128)) & 1 == 1
}

/// The cell coordinates `(sr, sc, cr, cc)` whose bit index is `i`.
pub open spec fn bit_coords_of(i: int) -> (int, int, int, int) {
    (i / 27, (i % 9) / 3, (i % 27) / 9, i % 3)
}

/// The bit index and the cell coordinates determine each other.
pub proof fn lemma_bit_pos_coords(sr: int, sc: int, cr: int, cc: int)
    requires
        0 <= sr < 3,
        0 <= sc < 3,
        0 <= cr < 3,
        0 <= cc < 3,
    ensures
        0 <= bit_pos(sr, sc, cr, cc) < 81,
        bit_coords_of(bit_pos(sr, sc, cr, cc)) == (sr, sc, cr, cc),
{
    let i = bit_pos(sr, sc, cr, cc);
    vstd::arithmetic::div_mod::lemma_fundamental_div_mod_converse(i, 27, sr, 9 * cr + 3 * sc + cc);
    vstd::arithmetic::div_mod::lemma_fundamental_div_mod_converse(
        9 * cr + 3 * sc + cc,
        9,
        cr,
        3 * sc + cc,
    );
    vstd::arithmetic::div_mod::lemma_fundamental_div_mod_converse(i, 9, 3 * sr + cr, 3 * sc + cc);
    vstd::arithmetic::div_mod::lemma_fundamental_div_mod_converse(3 * sc + cc, 3, sc, cc);
}

/// Each bit of a bitwise or is the disjunction of the operands' bits.
pub proof fn lemma_bit_or(x: u128, y: u128)
    ensures
        forall|i: int| 0 <= i < 128 ==> (#[trigger] bit(x | y, i) <==> bit(x, i) || bit(y, i)),
{
    assert(forall|i: u128|
        i < 128 ==> ((((x | y) >> i) & 1 == 1) <==> (((x >> i) & 1 == 1) || ((y >> i) & 1
            == 1)))) by (bit_vector);
}

/// Each bit of a bitwise and is the conjunction of the operands' bits.
pub proof fn lemma_bit_and(x: u128, y: u128)
    ensures
        forall|i: int| 0 <= i < 128 ==> (#[trigger] bit(x & y, i) <==> bit(x, i) && bit(y, i)),
{
    assert(forall|i: u128|
        i < 128 ==> ((((x & y) >> i) & 1 == 1) <==> (((x >> i) & 1 == 1) && ((y >> i) & 1
            == 1)))) by (bit_vector);
}

/// Each bit of a left shift is the operand's bit that far to the right.
pub proof fn lemma_bit_shl(x: u128, k: u128)
    requires
        k < 128,
    ensures
        forall|i: int|
            0 <= i < 128 ==> (#[trigger] bit(x << k, i) <==> (i >= k && bit(x, i - k))),
{
    assert(forall|i: u128|
        i < 128 ==> ((((x << k) >> i) & 1 == 1) <==> (i >= k && ((x >> (i - k) as u128) & 1
            == 1)))) by (bit_vector)
        requires
            k < 128,
    ;
}

/// A power of two has exactly one bit.
pub proof fn lemma_bit_pow2(k: u128)
    requires
        k < 128,
    ensures
        forall|i: int| 0 <= i < 128 ==> (#[trigger] bit(1u128 << k, i) <==> i == k),
{
    assert(forall|i: u128| i < 128 ==> ((((1u128 << k) >> i) & 1 == 1) <==> i == k)) by (bit_vector)
        requires
            k < 128,
    ;
}

/// A mask with no bits at or above `n` has none at or above `n + 1` after
/// its bit `n` is set.
proof fn lemma_shr_zero_step(x: u128, n: u128)
    requires
        x >> n == 0,
        n < 81,
    ensures
        (x | (1u128 << n)) >> (n + 1) as u128 == 0,
        x >> (n + 1) as u128 == 0,
{
    assert((x >> n == 0 && n < 81) ==> ((x | (1u128 << n)) >> ((n + 1) as u128) == 0 && x >> ((n
        + 1) as u128) == 0)) by (bit_vector);
}

/// Setting a bit that the other mask lacks keeps two masks disjoint.
proof fn lemma_disjoint_step(x: u128, y: u128, n: u128)
    requires
        x & y == 0,
        y >> n == 0,
        n < 81,
    ensures
        (x | (1u128 << n)) & y == 0,
{
    assert((x & y == 0 && y >> n == 0 && n < 81) ==> ((x | (1u128 << n)) & y == 0))
        by (bit_vector);
}

/// A mask with no bits at or above `n` has no set bit there.
pub proof fn lemma_shr_zero_bits(x: u128, n: u128)
    requires
        x >> n == 0,
        n < 128,
    ensures
        forall|i: int| n <= i < 128 ==> !bit(x, i),
{
    assert(forall|i: u128| n <= i < 128 ==> ((x >> i) & 1 == 0)) by (bit_vector)
        requires
            x >> n == 0,
            n < 128,
    ;
}

/// Bitwise and commutes.
proof fn lemma_and_comm(x: u128, y: u128)
    ensures
        x & y == y & x,
{
    assert(x & y == y & x) by (bit_vector);
}

/// Distinct powers of two differ.
proof fn lemma_pow2_injective(a: u128, b: u128)
    requires
        a < 128,
        b < 128,
        (1u128 << a) == (1u128 << b),
    ensures
        a == b,
{
    assert((a < 128 && b < 128 && (1u128 << a) == (1u128 << b)) ==> a == b) by (bit_vector);
}

/// Columns two and one of every three-bit group: where a bit and its two
/// right neighbours may witness a complete sub-row.
pub(crate) const COL_MASK: u128 =
    0b110_110_110_110_110_110_110_110_110_110_110_110_110_110_110_110_110_110_110_110_110_110_110_110_110_110_110;

/// The upper two sub-rows of every row of subboards: where a bit and its
/// two lower neighbours may witness a complete sub-column.
pub(crate) const ROW_MASK: u128 =
    0b111_111_111_111_111_111_000_000_000_111_111_111_111_111_111_000_000_000_111_111_111_111_111_111_000_000_000;

/// The cells a falling diagonal of a subboard ends or passes through, used
/// with shifts by ten.
pub(crate) const LEFT_RIGHT_MASK: u128 =
    0b100_100_100_010_010_010_000_000_000_100_100_100_010_010_010_000_000_000_100_100_100_010_010_010_000_000_000;

/// The cells a rising diagonal of a subboard ends or passes through, used
/// with shifts by eight.
pub(crate) const RIGHT_LEFT_MASK: u128 =
    0b001_001_001_010_010_010_000_000_000_001_001_001_010_010_010_000_000_000_001_001_001_010_010_010_000_000_000;

/// The nine corner bits, one per subboard: where aggregated subboard facts
/// are collected.
pub const CORNER_MASK: u128 =
    0b100_100_100_000_000_000_000_000_000_100_100_100_000_000_000_000_000_000_100_100_100_000_000_000_000_000_000;

/// The upper two rows of subboard corners at stride 27, for super-board
/// column detection.
pub(crate) const OVERALL_COL_MASK: u128 =
    0b111_111_111_111_111_111_000_000_000_111_111_111_111_111_111_000_000_000_111_111_111_111_111_111_000_000_000;

/// Corner columns two and one at stride 3, for super-board row detection.
pub(crate) const OVERALL_ROW_MASK: u128 =
    0b110_110_110_110_110_110_110_110_110_110_110_110_110_110_110_110_110_110_110_110_110_110_110_110_110_110_110;

/// The corners of the falling diagonal of subboards.
pub(crate) const OVERALL_LEFT_RIGHT_WIN: u128 =
    0b100_000_000_000_000_000_000_000_000_000_100_000_000_000_000_000_000_000_000_000_100_000_000_000_000_000_000;

/// The corners of the rising diagonal of subboards.
pub(crate) const OVERALL_RIGHT_LEFT_WIN: u128 =
    0b000_000_100_000_000_000_000_000_000_000_100_000_000_000_000_000_000_000_100_000_000_000_000_000_000_000_000;

/// All 81 board bits.
pub(crate) const WHOLE_BOARD_MASK: u128 =
    0b111_111_111_111_111_111_111_111_111_111_111_111_111_111_111_111_111_111_111_111_111_111_111_111_111_111_111;

/// The mask `counts` holds a complete line of subboard `(sr, sc)`: three
/// bits on a row, a column or a diagonal of that subboard.
pub open spec fn sub_won(counts: u128, sr: int, sc: int) -> bool {
    ||| (bit(counts, bit_pos(sr, sc, 0, 0)) && bit(counts, bit_pos(sr, sc, 0, 1)) && bit(
        counts,
        bit_pos(sr, sc, 0, 2),
    ))
    ||| (bit(counts, bit_pos(sr, sc, 1, 0)) && bit(counts, bit_pos(sr, sc, 1, 1)) && bit(
        counts,
        bit_pos(sr, sc, 1, 2),
    ))
    ||| (bit(counts, bit_pos(sr, sc, 2, 0)) && bit(counts, bit_pos(sr, sc, 2, 1)) && bit(
        counts,
        bit_pos(sr, sc, 2, 2),
    ))
    ||| (bit(counts, bit_pos(sr, sc, 0, 0)) && bit(counts, bit_pos(sr, sc, 1, 0)) && bit(
        counts,
        bit_pos(sr, sc, 2, 0),
    ))
    ||| (bit(counts, bit_pos(sr, sc, 0, 1)) && bit(counts, bit_pos(sr, sc, 1, 1)) && bit(
        counts,
        bit_pos(sr, sc, 2, 1),
    ))
    ||| (bit(counts, bit_pos(sr, sc, 0, 2)) && bit(counts, bit_pos(sr, sc, 1, 2)) && bit(
        counts,
        bit_pos(sr, sc, 2, 2),
    ))
    ||| (bit(counts, bit_pos(sr, sc, 0, 0)) && bit(counts, bit_pos(sr, sc, 1, 1)) && bit(
        counts,
        bit_pos(sr, sc, 2, 2),
    ))
    ||| (bit(counts, bit_pos(sr, sc, 0, 2)) && bit(counts, bit_pos(sr, sc, 1, 1)) && bit(
        counts,
        bit_pos(sr, sc, 2, 0),
    ))
}

/// Complete sub-rows of `counts`, marked at the right end of each row
/// triplet.  Bits off those marking positions are noise that later
/// aggregation masks away.
fn row_wins_single(counts: u128) -> (r: u128)
    ensures
        forall|i: int| #[trigger] bit(r, i) ==> i < 81 && i % 3 != 0,
        forall|i: int|
            0 <= i < 81 && i % 3 == 2 ==> (#[trigger] bit(r, i) <==> bit(counts, i) && bit(
                counts,
                i - 1,
            ) && bit(counts, i - 2)),
{
    let onestep = (counts << 1) & COL_MASK;
    let twostep = (counts << 2) & COL_MASK;
    let r = counts & onestep & twostep;
    proof {
        let m = COL_MASK;
        assert(forall|i: u128|
            i < 128 ==> ((((counts & ((counts << 1) & m) & ((counts << 2) & m)) >> i) & 1 == 1)
                ==> (i < 81 && i % 3 != 0))) by (bit_vector)
            requires
                m
                    == 0b110_110_110_110_110_110_110_110_110_110_110_110_110_110_110_110_110_110_110_110_110_110_110_110_110_110_110u128,
        ;
        assert(forall|i: u128|
            i < 81 && i % 3 == 2 ==> ((((counts & ((counts << 1) & m) & ((counts << 2) & m)) >> i)
                & 1 == 1) <==> (((counts >> i) & 1 == 1) && ((counts >> (i - 1) as u128) & 1 == 1)
                && ((counts >> (i - 2) as u128) & 1 == 1)))) by (bit_vector)
            requires
                m
                    == 0b110_110_110_110_110_110_110_110_110_110_110_110_110_110_110_110_110_110_110_110_110_110_110_110_110_110_110u128,
        ;
    }
    r
}

/// Complete sub-columns of `counts`, marked at the bottom cell of each
/// column.  Bits off those marking positions are noise.
fn col_wins_single(counts: u128) -> (r: u128)
    ensures
        forall|i: int| #[trigger] bit(r, i) ==> i < 81 && i % 27 >= 9,
        forall|i: int|
            0 <= i < 81 && i % 27 >= 18 ==> (#[trigger] bit(r, i) <==> bit(counts, i) && bit(
                counts,
                i - 9,
            ) && bit(counts, i - 18)),
{
    let onestep = (counts << 9) & ROW_MASK;
    let twostep = (counts << 18) & ROW_MASK;
    let r = counts & onestep & twostep;
    proof {
        let m = ROW_MASK;
        assert(forall|i: u128|
            i < 128 ==> ((((counts & ((counts << 9) & m) & ((counts << 18) & m)) >> i) & 1 == 1)
                ==> (i < 81 && i % 27 >= 9))) by (bit_vector)
            requires
                m
                    == 0b111_111_111_111_111_111_000_000_000_111_111_111_111_111_111_000_000_000_111_111_111_111_111_111_000_000_000u128,
        ;
        assert(forall|i: u128|
            i < 81 && i % 27 >= 18 ==> ((((counts & ((counts << 9) & m) & ((counts << 18) & m))
                >> i) & 1 == 1) <==> (((counts >> i) & 1 == 1) && ((counts >> (i - 9) as u128) & 1
                == 1) && ((counts >> (i - 18) as u128) & 1 == 1)))) by (bit_vector)
            requires
                m
                    == 0b111_111_111_111_111_111_000_000_000_111_111_111_111_111_111_000_000_000_111_111_111_111_111_111_000_000_000u128,
        ;
    }
    r
}

/// Complete falling diagonals of `counts`, marked at each subboard's
/// corner bit.  Bits off the corner positions are noise.
fn left_right_wins_single(counts: u128) -> (r: u128)
    ensures
        forall|i: int|
            0 <= i < 81 && (i % 27 == 20 || i % 27 == 23 || i % 27 == 26) ==> (#[trigger] bit(r, i)
                <==> bit(counts, i) && bit(counts, i - 10) && bit(counts, i - 20)),
{
    let onestep = (counts << 10) & LEFT_RIGHT_MASK;
    let twostep = (counts << 20) & LEFT_RIGHT_MASK;
    let r = counts & onestep & twostep;
    proof {
        let m = LEFT_RIGHT_MASK;
        assert(forall|i: u128|
            i < 81 && (i % 27 == 20 || i % 27 == 23 || i % 27 == 26) ==> ((((counts & ((counts
                << 10) & m) & ((counts << 20) & m)) >> i) & 1 == 1) <==> (((counts >> i) & 1 == 1)
                && ((counts >> (i - 10) as u128) & 1 == 1) && ((counts >> (i - 20) as u128) & 1
                == 1)))) by (bit_vector)
            requires
                m
                    == 0b100_100_100_010_010_010_000_000_000_100_100_100_010_010_010_000_000_000_100_100_100_010_010_010_000_000_000u128,
        ;
    }
    r
}

/// Complete rising diagonals of `counts`, marked at the bottom-left cell
/// of each subboard.  Bits off those positions are noise.
fn right_left_wins_single(counts: u128) -> (r: u128)
    ensures
        forall|i: int|
            0 <= i < 81 && (i % 27 == 18 || i % 27 == 21 || i % 27 == 24) ==> (#[trigger] bit(r, i)
                <==> bit(counts, i) && bit(counts, i - 8) && bit(counts, i - 16)),
{
    let onestep = (counts << 8) & RIGHT_LEFT_MASK;
    let twostep = (counts << 16) & RIGHT_LEFT_MASK;
    let r = counts & onestep & twostep;
    proof {
        let m = RIGHT_LEFT_MASK;
        assert(forall|i: u128|
            i < 81 && (i % 27 == 18 || i % 27 == 21 || i % 27 == 24) ==> ((((counts & ((counts
                << 8) & m) & ((counts << 16) & m)) >> i) & 1 == 1) <==> (((counts >> i) & 1 == 1)
                && ((counts >> (i - 8) as u128) & 1 == 1) && ((counts >> (i - 16) as u128) & 1
                == 1)))) by (bit_vector)
            requires
                m
                    == 0b001_001_001_010_010_010_000_000_000_001_001_001_010_010_010_000_000_000_001_001_001_010_010_010_000_000_000u128,
        ;
    }
    r
}

/// Which bits the corner mask holds.
proof fn lemma_corner_mask_bits()
    ensures
        forall|i: int|
            0 <= i < 128 ==> (#[trigger] bit(CORNER_MASK, i) <==> (i < 81 && (i % 27 == 20 || i
                % 27 == 23 || i % 27 == 26))),
{
    let m = CORNER_MASK;
    assert(forall|i: u128|
        i < 128 ==> ((((m >> i) & 1) == 1) <==> (i < 81 && (i % 27 == 20 || i % 27 == 23 || i % 27
            == 26)))) by (bit_vector)
        requires
            m
                == 0b100_100_100_000_000_000_000_000_000_100_100_100_000_000_000_000_000_000_100_100_100_000_000_000_000_000_000u128,
    ;
}

/// All completely won subboards of `counts`, aggregated onto the corner
/// bits: the corner bit of subboard `(sr, sc)` is set exactly when the mask
/// holds a complete line of that subboard.  No bit off the corner
/// positions is set.
#[verifier::rlimit(100)]
fn all_wins_single(counts: u128) -> (r: u128)
    ensures
        forall|a: int, b: int|
            0 <= a < 3 && 0 <= b < 3 ==> (#[trigger] bit(r, corner_pos(a, b)) <==> sub_won(
                counts,
                a,
                b,
            )),
        forall|i: int|
            #[trigger] bit(r, i) ==> i < 81 && (i % 27 == 20 || i % 27 == 23 || i % 27 == 26),
        r & CORNER_MASK == r,
{
    let row = row_wins_single(counts);
    let col = col_wins_single(counts);
    let left_right = left_right_wins_single(counts);
    let right_left = right_left_wins_single(counts);

    let accumulate_row = (row | (row << 9) | (row << 18)) & CORNER_MASK;
    let accumulate_col = (col | (col << 1) | (col << 2)) & CORNER_MASK;
    let accumulate_left_right = left_right & CORNER_MASK;
    let accumulate_right_left = (right_left << 2) & CORNER_MASK;
    let all_wins = accumulate_col | accumulate_row | accumulate_left_right | accumulate_right_left;
    proof {
        let a1 = accumulate_col;
        let a2 = accumulate_row;
        let a3 = accumulate_left_right;
        let a4 = accumulate_right_left;
        let cm = CORNER_MASK;
        assert((a1 & cm == a1 && a2 & cm == a2 && a3 & cm == a3 && a4 & cm == a4) ==> ((a1 | a2
            | a3 | a4) & cm == (a1 | a2 | a3 | a4))) by (bit_vector);
        assert((row | (row << 9) | (row << 18)) & cm & cm == (row | (row << 9) | (row << 18))
            & cm) by (bit_vector);
        assert((col | (col << 1) | (col << 2)) & cm & cm == (col | (col << 1) | (col << 2))
            & cm) by (bit_vector);
        assert(left_right & cm & cm == left_right & cm) by (bit_vector);
        assert((right_left << 2) & cm & cm == (right_left << 2) & cm) by (bit_vector);
        lemma_corner_mask_bits();
        lemma_bit_shl(row, 9);
        lemma_bit_shl(row, 18);
        lemma_bit_or(row, row << 9);
        lemma_bit_or(row | (row << 9), row << 18);
        lemma_bit_and(row | (row << 9) | (row << 18), CORNER_MASK);
        lemma_bit_shl(col, 1);
        lemma_bit_shl(col, 2);
        lemma_bit_or(col, col << 1);
        lemma_bit_or(col | (col << 1), col << 2);
        lemma_bit_and(col | (col << 1) | (col << 2), CORNER_MASK);
        lemma_bit_and(left_right, CORNER_MASK);
        lemma_bit_shl(right_left, 2);
        lemma_bit_and(right_left << 2, CORNER_MASK);
        lemma_bit_or(accumulate_col, accumulate_row);
        lemma_bit_or(accumulate_col | accumulate_row, accumulate_left_right);
        lemma_bit_or(
            accumulate_col | accumulate_row | accumulate_left_right,
            accumulate_right_left,
        );
        assert forall|a: int, b: int| 0 <= a < 3 && 0 <= b < 3 implies (#[trigger] bit(
            all_wins,
            corner_pos(a, b),
        ) <==> sub_won(counts, a, b)) by {
            let c = corner_pos(a, b);
            assert(c == 27 * a + 3 * b + 20);
            assert(c % 27 == 3 * b + 20) by {
                vstd::arithmetic::div_mod::lemma_fundamental_div_mod_converse(
                    c,
                    27,
                    a,
                    3 * b + 20,
                );
            }
            assert((c - 9) % 3 == 2 && (c - 18) % 3 == 2) by {
                vstd::arithmetic::div_mod::lemma_fundamental_div_mod_converse(
                    c - 9,
                    3,
                    9 * a + b + 3,
                    2,
                );
                vstd::arithmetic::div_mod::lemma_fundamental_div_mod_converse(
                    c - 18,
                    3,
                    9 * a + b,
                    2,
                );
            }
            assert(c % 3 == 2) by {
                vstd::arithmetic::div_mod::lemma_fundamental_div_mod_converse(
                    c,
                    3,
                    9 * a + b + 6,
                    2,
                );
            }
            assert((c - 1) % 27 == 3 * b + 19 && (c - 2) % 27 == 3 * b + 18) by {
                vstd::arithmetic::div_mod::lemma_fundamental_div_mod_converse(
                    c - 1,
                    27,
                    a,
                    3 * b + 19,
                );
                vstd::arithmetic::div_mod::lemma_fundamental_div_mod_converse(
                    c - 2,
                    27,
                    a,
                    3 * b + 18,
                );
            }
        }
    }
    all_wins
}

/// A complete column of set subboard corners in `w`.
pub open spec fn super_col_won(w: u128) -> bool {
    ||| (bit(w, 20) && bit(w, 47) && bit(w, 74))
    ||| (bit(w, 23) && bit(w, 50) && bit(w, 77))
    ||| (bit(w, 26) && bit(w, 53) && bit(w, 80))
}

/// A complete row of set subboard corners in `w`.
pub open spec fn super_row_won(w: u128) -> bool {
    ||| (bit(w, 20) && bit(w, 23) && bit(w, 26))
    ||| (bit(w, 47) && bit(w, 50) && bit(w, 53))
    ||| (bit(w, 74) && bit(w, 77) && bit(w, 80))
}

/// The falling diagonal of set subboard corners in `w`.
pub open spec fn super_lr_won(w: u128) -> bool {
    bit(w, 20) && bit(w, 50) && bit(w, 80)
}

/// The rising diagonal of set subboard corners in `w`.
pub open spec fn super_rl_won(w: u128) -> bool {
    bit(w, 26) && bit(w, 50) && bit(w, 74)
}

/// Any complete line of set subboard corners in `w`.
pub open spec fn super_any_won(w: u128) -> bool {
    super_col_won(w) || super_row_won(w) || super_lr_won(w) || super_rl_won(w)
}

/// The outcome a pair of findings yields: the first player's wins before
/// the second's.
pub open spec fn pick_winner(a: bool, b: bool) -> Option<Player> {
    if a {
        Some(Player::Player1)
    } else if b {
        Some(Player::Player2)
    } else {
        None
    }
}

/// The winner the packed super-board check reports on a pair of corner
/// masks: each direction is checked for the first player first, and a
/// later direction's finding replaces an earlier one.
pub open spec fn who_win_spec(w1: u128, w2: u128) -> Option<Player> {
    let row = pick_winner(super_row_won(w1), super_row_won(w2));
    let col = pick_winner(super_col_won(w1), super_col_won(w2));
    let lr = pick_winner(super_lr_won(w1), super_lr_won(w2));
    let rl = pick_winner(super_rl_won(w1), super_rl_won(w2));
    if rl is Some {
        rl
    } else if lr is Some {
        lr
    } else if col is Some {
        col
    } else {
        row
    }
}

/// All nine cells of subboard `(sr, sc)` are set in `m`.
pub open spec fn sub_full_bits(m: u128, sr: int, sc: int) -> bool {
    forall|cr: int, cc: int|
        0 <= cr < 3 && 0 <= cc < 3 ==> bit(m, #[trigger] bit_pos(sr, sc, cr, cc))
}

/// Each bit of a complement is the operand's bit flipped.
proof fn lemma_bit_not(x: u128)
    ensures
        forall|i: int| 0 <= i < 128 ==> (#[trigger] bit(!x, i) <==> !bit(x, i)),
{
    assert(forall|i: u128| i < 128 ==> ((((!x) >> i) & 1 == 1) <==> !((x >> i) & 1 == 1)))
        by (bit_vector);
}

/// A single-bit mask meets another mask exactly at that bit.
proof fn lemma_pow2_and(z: u128, k: u128)
    requires
        k < 128,
    ensures
        (1u128 << k) & z == 0 <==> !bit(z, k as int),
{
    assert(((1u128 << k) & z == 0) <==> !((z >> k) & 1 == 1)) by (bit_vector)
        requires
            k < 128,
    ;
}

/// Which bits the whole-board mask holds.
proof fn lemma_whole_mask_bits()
    ensures
        forall|i: int| 0 <= i < 128 ==> (#[trigger] bit(WHOLE_BOARD_MASK, i) <==> i < 81),
{
    let m = WHOLE_BOARD_MASK;
    assert(forall|i: u128| i < 128 ==> ((((m >> i) & 1) == 1) <==> i < 81)) by (bit_vector)
        requires
            m
                == 0b111_111_111_111_111_111_111_111_111_111_111_111_111_111_111_111_111_111_111_111_111_111_111_111_111_111_111u128,
    ;
}

/// A mask of subboard corner bits, spread out to cover each marked
/// subboard's nine cells: bit `i` of the result is the corner bit of the
/// subboard cell `i` belongs to.
fn count_to_mask(counts: u128) -> (r: u128)
    requires
        counts & CORNER_MASK == counts,
    ensures
        forall|i: int|
            0 <= i < 81 ==> (#[trigger] bit(r, i) <==> bit(counts, corner_pos(i / 27, (i % 9) / 3))),
{
    let col_mask = counts | (counts >> 9) | (counts >> 18);
    let r = col_mask | (col_mask >> 1) | (col_mask >> 2);
    proof {
        assert(forall|i: u128|
            i < 81 ==> (((r >> i) & 1 == 1) <==> ((counts >> ((27 * (i / 27) + 3 * ((i % 9) / 3)
                + 20) as u128)) & 1 == 1))) by (bit_vector)
            requires
                counts
                    & 0b100_100_100_000_000_000_000_000_000_100_100_100_000_000_000_000_000_000_100_100_100_000_000_000_000_000_000u128
                    == counts,
                col_mask == counts | (counts >> 9) | (counts >> 18),
                r == col_mask | (col_mask >> 1) | (col_mask >> 2),
        ;
    }
    r
}

/// No mask has a set bit when it is zero.
proof fn lemma_zero_bits()
    ensures
        forall|i: int| 0 <= i < 128 ==> !bit(0u128, i),
{
    assert(forall|i: u128| i < 128 ==> ((0u128 >> i) & 1 == 0)) by (bit_vector);
}

/// A single extracted bit is zero or one.
proof fn lemma_bit01(x: u128, n: u128)
    ensures
        ((x >> n) & 1 == 0) || ((x >> n) & 1 == 1),
{
    assert(((x >> n) & 1 == 0) || ((x >> n) & 1 == 1)) by (bit_vector);
}

/// Setting a bit absent from the other mask keeps two masks disjoint.
proof fn lemma_disjoint_set(x: u128, y: u128, n: u128)
    requires
        x & y == 0,
        (y >> n) & 1 == 0,
        n < 81,
    ensures
        (x | (1u128 << n)) & y == 0,
{
    assert((x & y == 0 && (y >> n) & 1 == 0 && n < 81) ==> ((x | (1u128 << n)) & y == 0))
        by (bit_vector);
}

/// Setting a board bit keeps the high bits clear.
proof fn lemma_shr81_set(x: u128, n: u128)
    requires
        x >> 81 == 0,
        n < 81,
    ensures
        (x | (1u128 << n)) >> 81 == 0,
{
    assert((x >> 81 == 0 && n < 81) ==> ((x | (1u128 << n)) >> 81 == 0)) by (bit_vector);
}

/// A corner bit lies inside the corner mask.
proof fn lemma_corner_bit_shaped(y: u128, x: u128)
    requires
        y < 3,
        x < 3,
    ensures
        (1u128 << ((27 * y + 3 * x + 20) as u128)) & CORNER_MASK == (1u128 << ((27 * y + 3 * x
            + 20) as u128)),
{
    let cm = CORNER_MASK;
    assert((y < 3 && x < 3) ==> ((1u128 << ((27 * y + 3 * x + 20) as u128)) & cm == (1u128 << ((27
        * y + 3 * x + 20) as u128)))) by (bit_vector)
        requires
            cm
                == 0b100_100_100_000_000_000_000_000_000_100_100_100_000_000_000_000_000_000_100_100_100_000_000_000_000_000_000u128,
    ;
}

/// How many of the lowest `n` bits of `x` are set.
pub open spec fn count_bits(x: u128, n: int) -> int
    decreases n,
{
    if n <= 0 {
        0
    } else {
        count_bits(x, n - 1) + if bit(x, n - 1) {
            1int
        } else {
            0int
        }
    }
}

/// The mathematical model of a packed board: the two cell masks and the
/// forced subboard of the last move, if any.
pub struct BitModel {
    pub p1: u128,
    pub p2: u128,
    pub last: Option<(usize, usize)>,
}

/// The tile a packed model holds in cell `(sr, sc, cr, cc)`.
pub open spec fn bm_tile(m: BitModel, sr: int, sc: int, cr: int, cc: int) -> Tile {
    if bit(m.p1, bit_pos(sr, sc, cr, cc)) {
        Tile::Player1
    } else if bit(m.p2, bit_pos(sr, sc, cr, cc)) {
        Tile::Player2
    } else {
        Tile::Empty
    }
}

/// The straightforward board a packed model encodes: its cells, the turn
/// the mark counts imply, and the forced subboard written into the last
/// move's cell-coordinate slots.
pub open spec fn bm_to_model(m: BitModel) -> BoardModel {
    let cells = Seq::new(
        81,
        |n: int|
            {
                let (a, b, c, d) = coords_of(n);
                bm_tile(m, a as int, b as int, c as int, d as int)
            },
    );
    BoardModel {
        cells,
        to_move: turn_of(cells),
        last: match m.last {
            None => None,
            Some((y, x)) => Some((0usize, 0usize, y, x)),
        },
    }
}

/// The packed board `bb` encodes the straightforward board `m`: the cells
/// agree, and the last-move bit stands for `m`'s forced subboard.
pub open spec fn encodes(bb: BitBoard, m: BoardModel) -> bool {
    &&& bb.wf()
    &&& forall|a: int, b: int, c: int, d: int|
        0 <= a < 3 && 0 <= b < 3 && 0 <= c < 3 && 0 <= d < 3 ==> #[trigger] bb.tile_at(a, b, c, d)
            == m.cell(a, b, c, d)
    &&& bb.last_forced() == (match m.last {
        None => None::<(usize, usize)>,
        Some((_, _, y, x)) => Some((y, x)),
    })
}

/// Whose turn a packed board implies: the first player's when an even
/// number of cells is occupied.
pub open spec fn bm_turn(m: BitModel) -> Player {
    if count_bits(m.p1 | m.p2, 81) % 2 == 0 {
        Player::Player1
    } else {
        Player::Player2
    }
}

/// The mask `w` holds a complete line of won subboards: the packed
/// super-board win condition, stated cell by cell.
pub open spec fn super_won_cells(w: u128) -> bool {
    ||| (sub_won(w, 0, 0) && sub_won(w, 0, 1) && sub_won(w, 0, 2))
    ||| (sub_won(w, 1, 0) && sub_won(w, 1, 1) && sub_won(w, 1, 2))
    ||| (sub_won(w, 2, 0) && sub_won(w, 2, 1) && sub_won(w, 2, 2))
    ||| (sub_won(w, 0, 0) && sub_won(w, 1, 0) && sub_won(w, 2, 0))
    ||| (sub_won(w, 0, 1) && sub_won(w, 1, 1) && sub_won(w, 2, 1))
    ||| (sub_won(w, 0, 2) && sub_won(w, 1, 2) && sub_won(w, 2, 2))
    ||| (sub_won(w, 0, 0) && sub_won(w, 1, 1) && sub_won(w, 2, 2))
    ||| (sub_won(w, 0, 2) && sub_won(w, 1, 1) && sub_won(w, 2, 0))
}

/// Marking the cell with bit index `i` is legal on the packed board `m`,
/// the super-board win check aside: the cell is empty, its subboard is not
/// won, and it lies in the forced subboard unless there is none or that
/// subboard is decided.
pub open spec fn bm_move_allowed(m: BitModel, i: int) -> bool {
    let (a, b, c, d) = bit_coords_of(i);
    &&& !bit(m.p1, i)
    &&& !bit(m.p2, i)
    &&& !sub_won(m.p1, a, b)
    &&& !sub_won(m.p2, a, b)
    &&& match m.last {
        None => true,
        Some((y, x)) => {
            ||| (a == y && b == x)
            ||| sub_won(m.p1, y as int, x as int)
            ||| sub_won(m.p2, y as int, x as int)
            ||| sub_full_bits(m.p1 | m.p2, y as int, x as int)
        },
    }
}

/// The packed board after the player to move marks the cell with bit index
/// `i`: the bit joins that player's mask, and the cell's intra-subboard
/// coordinates become the forced subboard.
pub open spec fn bm_apply(m: BitModel, i: int) -> BitModel {
    let (a, b, c, d) = bit_coords_of(i);
    BitModel {
        p1: if bm_turn(m) == Player::Player1 {
            m.p1 | (1u128 << (i as u128))
        } else {
            m.p1
        },
        p2: if bm_turn(m) == Player::Player2 {
            m.p2 | (1u128 << (i as u128))
        } else {
            m.p2
        },
        last: Some((c as usize, d as usize)),
    }
}

/// The bit index of the cell with flat model index `q`.
pub open spec fn bit_of_model_idx(q: int) -> int {
    let (a, b, c, d) = model_coords(q);
    bit_pos(a, b, c, d)
}

/// The packed boards reachable by one legal move whose cell's flat model
/// index is below `n`, in ascending index order — the same order the
/// straightforward board enumerates — ignoring the super-board win check.
pub open spec fn bm_next_prefix(m: BitModel, n: int) -> Seq<BitModel>
    decreases n,
{
    if n <= 0 {
        Seq::empty()
    } else {
        bm_next_prefix(m, n - 1) + if bm_move_allowed(m, bit_of_model_idx(n - 1)) {
            seq![bm_apply(m, bit_of_model_idx(n - 1))]
        } else {
            Seq::empty()
        }
    }
}

/// The packed boards reachable by one legal move: none once the
/// super-board is won, and otherwise one per allowed cell, in the
/// straightforward board's row-major order.
pub open spec fn bm_next(m: BitModel) -> Seq<BitModel> {
    if super_won_cells(m.p1) || super_won_cells(m.p2) {
        Seq::empty()
    } else {
        bm_next_prefix(m, 81)
    }
}

/// A packed legal prefix is empty exactly when every cell below its bound
/// admits no move.
proof fn lemma_bm_prefix_all_blocked(m: BitModel, n: int)
    requires
        0 <= n <= 81,
    ensures
        bm_next_prefix(m, n).len() == 0 <==> (forall|q: int|
            0 <= q < n ==> !bm_move_allowed(m, #[trigger] bit_of_model_idx(q))),
    decreases n,
{
    if n > 0 {
        lemma_bm_prefix_all_blocked(m, n - 1);
    }
}

/// The packed encoding of a board holds a subboard line for a player
/// exactly where the board does.
pub proof fn lemma_encoding_lines(bb: BitBoard, m: BoardModel)
    requires
        encodes(bb, m),
    ensures
        forall|a: int, b: int|
            0 <= a < 3 && 0 <= b < 3 ==> (#[trigger] sub_won(bb@.p1, a, b) <==> m.has_line(
                a,
                b,
                Player::Player1,
            )),
        forall|a: int, b: int|
            0 <= a < 3 && 0 <= b < 3 ==> (#[trigger] sub_won(bb@.p2, a, b) <==> m.has_line(
                a,
                b,
                Player::Player2,
            )),
        forall|a: int, b: int|
            0 <= a < 3 && 0 <= b < 3 ==> (sub_full_bits(bb@.p1 | bb@.p2, a, b) <==> #[trigger] m.sub_full(
                a,
                b,
            )),
{
    lemma_bit_and(bb@.p1, bb@.p2);
    lemma_bit_or(bb@.p1, bb@.p2);
    lemma_zero_bits();
    assert forall|a: int, b: int, c: int, d: int|
        0 <= a < 3 && 0 <= b < 3 && 0 <= c < 3 && 0 <= d < 3 implies {
        &&& (bit(bb@.p1, #[trigger] bit_pos(a, b, c, d)) <==> m.cell(a, b, c, d) == Tile::Player1)
        &&& (bit(bb@.p2, bit_pos(a, b, c, d)) <==> m.cell(a, b, c, d) == Tile::Player2)
        &&& (bit(bb@.p1 | bb@.p2, bit_pos(a, b, c, d)) <==> m.cell(a, b, c, d) != Tile::Empty)
    } by {
        assert(bb.tile_at(a, b, c, d) == m.cell(a, b, c, d));
        assert(bit(bb@.p1 & bb@.p2, bit_pos(a, b, c, d)) == bit(0, bit_pos(a, b, c, d)));
    }
    assert forall|a: int, b: int| 0 <= a < 3 && 0 <= b < 3 implies (sub_full_bits(
        bb@.p1 | bb@.p2,
        a,
        b,
    ) <==> #[trigger] m.sub_full(a, b)) by {
        if sub_full_bits(bb@.p1 | bb@.p2, a, b) {
            assert forall|cr: int, cc: int| 0 <= cr < 3 && 0 <= cc < 3 implies #[trigger] m.cell(
                a,
                b,
                cr,
                cc,
            ) != Tile::Empty by {
                assert(bit(bb@.p1 | bb@.p2, bit_pos(a, b, cr, cc)));
            }
        } else {
            if m.sub_full(a, b) {
                assert forall|cr: int, cc: int| 0 <= cr < 3 && 0 <= cc < 3 implies bit(
                    bb@.p1 | bb@.p2,
                    #[trigger] bit_pos(a, b, cr, cc),
                ) by {
                    assert(m.cell(a, b, cr, cc) != Tile::Empty);
                }
                assert(sub_full_bits(bb@.p1 | bb@.p2, a, b));
            }
        }
    }
}

/// The packed and the straightforward winner checks agree on whether a
/// consistent board is won.
pub proof fn lemma_winner_agrees(bb: BitBoard, m: BoardModel)
    requires
        encodes(bb, m),
        m.consistent(),
    ensures
        m.winner() is Some <==> (super_won_cells(bb@.p1) || super_won_cells(bb@.p2)),
{
    lemma_encoding_lines(bb, m);
    crate::board::lemma_winner_lines(m);
    assert(super_won_cells(bb@.p1) <==> m.has_super_line(Player::Player1));
    assert(super_won_cells(bb@.p2) <==> m.has_super_line(Player::Player2));
}

/// The packed and the straightforward legality checks agree, cell by
/// cell, on every consistent board.
#[verifier::rlimit(100)]
#[verifier::spinoff_prover]
pub proof fn lemma_legal_moves_agree(bb: BitBoard, m: BoardModel)
    requires
        encodes(bb, m),
        m.wf(),
        m.consistent(),
    ensures
        forall|mv: (usize, usize, usize, usize)|
            mv.0 < 3 && mv.1 < 3 && mv.2 < 3 && mv.3 < 3 ==> (#[trigger] m.move_ok(mv) <==> (!(
            super_won_cells(bb@.p1) || super_won_cells(bb@.p2)) && bm_move_allowed(
                bb@,
                bit_pos(mv.0 as int, mv.1 as int, mv.2 as int, mv.3 as int),
            ))),
{
    lemma_encoding_lines(bb, m);
    lemma_winner_agrees(bb, m);
    assert forall|mv: (usize, usize, usize, usize)|
        mv.0 < 3 && mv.1 < 3 && mv.2 < 3 && mv.3 < 3 implies (#[trigger] m.move_ok(mv) <==> (!(
        super_won_cells(bb@.p1) || super_won_cells(bb@.p2)) && bm_move_allowed(
            bb@,
            bit_pos(mv.0 as int, mv.1 as int, mv.2 as int, mv.3 as int),
        ))) by {
        let i = bit_pos(mv.0 as int, mv.1 as int, mv.2 as int, mv.3 as int);
        lemma_bit_pos_coords(mv.0 as int, mv.1 as int, mv.2 as int, mv.3 as int);
        assert(bb.tile_at(mv.0 as int, mv.1 as int, mv.2 as int, mv.3 as int) == m.cell(
            mv.0 as int,
            mv.1 as int,
            mv.2 as int,
            mv.3 as int,
        ));
        crate::board::lemma_sub_winner_lines(m, mv.0 as int, mv.1 as int);
        match m.last {
            None => {},
            Some((_, _, y, x)) => {
                crate::board::lemma_sub_winner_lines(m, y as int, x as int);
            },
        }
    }
}

/// The packed and the straightforward move generators agree on whether a
/// consistent board is finished.
pub proof fn lemma_no_moves_agree(bb: BitBoard, m: BoardModel)
    requires
        encodes(bb, m),
        m.wf(),
        m.consistent(),
    ensures
        m.legal_seq().len() == 0 <==> bm_next(bb@).len() == 0,
{
    lemma_legal_moves_agree(bb, m);
    lemma_winner_agrees(bb, m);
    crate::board::lemma_legal_prefix_all_blocked(m, 81);
    lemma_bm_prefix_all_blocked(bb@, 81);
    if super_won_cells(bb@.p1) || super_won_cells(bb@.p2) {
        assert forall|k: int| 0 <= k < 81 implies !#[trigger] m.move_ok(coords_of(k)) by {
            assert(m.winner() is Some);
        }
    } else {
        assert forall|k: int| 0 <= k < 81 implies (#[trigger] m.move_ok(coords_of(k))
            <==> bm_move_allowed(bb@, bit_of_model_idx(k))) by {
            lemma_model_coords_inverse(k);
            let (a, b, c, d) = model_coords(k);
            let mv = (a as usize, b as usize, c as usize, d as usize);
            crate::board::lemma_cell_index_coords(a, b, c, d);
            assert(coords_of(k) == mv);
            assert(bit_of_model_idx(k) == bit_pos(
                mv.0 as int,
                mv.1 as int,
                mv.2 as int,
                mv.3 as int,
            ));
        }
        if m.legal_seq().len() == 0 {
            assert forall|q: int| 0 <= q < 81 implies !bm_move_allowed(
                bb@,
                #[trigger] bit_of_model_idx(q),
            ) by {
                assert(!m.move_ok(coords_of(q)));
            }
        }
        if bm_next(bb@).len() == 0 {
            assert forall|k: int| 0 <= k < 81 implies !#[trigger] m.move_ok(coords_of(k)) by {
                assert(!bm_move_allowed(bb@, bit_of_model_idx(k)));
            }
        }
    }
}

/// An injective map keeps a finite set's size.
proof fn lemma_injective_map_len<A, B>(s: Set<A>, f: spec_fn(A) -> B)
    requires
        s.finite(),
        forall|a1: A, a2: A| s.contains(a1) && s.contains(a2) && f(a1) == f(a2) ==> a1 == a2,
    ensures
        s.map(f).finite(),
        s.map(f).len() == s.len(),
    decreases s.len(),
{
    if s.len() == 0 {
        assert(s.map(f) =~= Set::empty());
    } else {
        let a = s.choose();
        let s2 = s.remove(a);
        lemma_injective_map_len(s2, f);
        assert(s2.map(f) =~= s.map(f).remove(f(a)));
        assert(s.map(f).contains(f(a)));
    }
}

/// The set of positions below `n` that satisfy `p`.
pub open spec fn index_set(n: int, p: spec_fn(int) -> bool) -> Set<int> {
    Set::new(|i: int| 0 <= i < n && p(i))
}

/// Counting positions one by one agrees with the size of their set.
proof fn lemma_index_set_len(n: int, p: spec_fn(int) -> bool, count: spec_fn(int) -> int)
    requires
        n >= 0,
        count(0) == 0,
        forall|k: int|
            0 <= k < n ==> #[trigger] count(k + 1) == count(k) + (if p(k) {
                1int
            } else {
                0int
            }),
    ensures
        index_set(n, p).finite(),
        index_set(n, p).len() == count(n),
    decreases n,
{
    if n == 0 {
        assert(index_set(0, p) =~= Set::empty());
    } else {
        lemma_index_set_len(n - 1, p, count);
        assert(count((n - 1) + 1) == count(n - 1) + (if p(n - 1) {
            1int
        } else {
            0int
        }));
        if p(n - 1) {
            assert(!index_set(n - 1, p).contains(n - 1));
            assert(index_set(n, p) =~= index_set(n - 1, p).insert(n - 1));
        } else {
            assert(index_set(n, p) =~= index_set(n - 1, p));
        }
    }
}

/// How many of the first `n` tiles are occupied.
pub open spec fn count_occupied(s: Seq<Tile>, n: int) -> int
    decreases n,
{
    if n <= 0 {
        0
    } else {
        count_occupied(s, n - 1) + if s[n - 1] != Tile::Empty {
            1int
        } else {
            0int
        }
    }
}

/// Occupied tiles are the two players' marks together.
proof fn lemma_count_occupied_marks(s: Seq<Tile>, n: int)
    requires
        0 <= n <= s.len(),
    ensures
        count_occupied(s, n) == crate::board::count_tile(s.take(n), Tile::Player1)
            + crate::board::count_tile(s.take(n), Tile::Player2),
    decreases n,
{
    if n > 0 {
        lemma_count_occupied_marks(s, n - 1);
        assert(s.take(n).drop_last() =~= s.take(n - 1));
        assert(s.take(n).last() == s[n - 1]);
    }
}

/// The packed board's occupied-bit count equals the board's occupied-cell
/// count: the bits are the cells, only enumerated in a different order.
#[verifier::rlimit(100)]
#[verifier::spinoff_prover]
proof fn lemma_count_bits_occupied(bb: BitBoard, m: BoardModel)
    requires
        encodes(bb, m),
        m.wf(),
    ensures
        count_bits(bb@.p1 | bb@.p2, 81) == count_occupied(m.cells, 81),
{
    let x = bb@.p1 | bb@.p2;
    let pbit = |i: int| bit(x, i);
    let pocc = |q: int| m.cells[q] != Tile::Empty;
    let cbit = |n: int| count_bits(x, n);
    let cocc = |n: int| count_occupied(m.cells, n);
    lemma_index_set_len(81, pbit, cbit);
    lemma_index_set_len(81, pocc, cocc);
    lemma_bit_or(bb@.p1, bb@.p2);
    assert forall|a: int, b: int, c: int, d: int|
        0 <= a < 3 && 0 <= b < 3 && 0 <= c < 3 && 0 <= d < 3 implies (bit(
        x,
        #[trigger] bit_pos(a, b, c, d),
    ) <==> m.cell(a, b, c, d) != Tile::Empty) by {
        assert(bb.tile_at(a, b, c, d) == m.cell(a, b, c, d));
    }
    let f = |q: int| bit_pos(model_coords(q).0, model_coords(q).1, model_coords(q).2, model_coords(q).3);
    assert(index_set(81, pocc).map(f) =~= index_set(81, pbit)) by {
        assert forall|i: int| #[trigger] index_set(81, pbit).contains(i) implies index_set(
            81,
            pocc,
        ).map(f).contains(i) by {
            lemma_bit_coords_inverse(i);
            let (a, b, c, d) = bit_coords_of(i);
            crate::board::lemma_cell_index_coords(a, b, c, d);
            let q = cell_index(a, b, c, d);
            assert(coords_of(q) == (a as usize, b as usize, c as usize, d as usize));
            assert(f(q) == i);
            assert(index_set(81, pocc).contains(q));
        }
        assert forall|y: int| #[trigger] index_set(81, pocc).map(f).contains(y) implies index_set(
            81,
            pbit,
        ).contains(y) by {
            let q = choose|q: int| index_set(81, pocc).contains(q) && f(q) == y;
            lemma_model_coords_inverse(q);
        }
    }
    assert forall|q1: int, q2: int|
        index_set(81, pocc).contains(q1) && index_set(81, pocc).contains(q2) && f(q1) == f(
            q2,
        ) implies q1 == q2 by {
        lemma_model_coords_inverse(q1);
        lemma_model_coords_inverse(q2);
    }
    lemma_injective_map_len(index_set(81, pocc), f);
}

/// The model coordinates of a board position, as plain integers.
pub open spec fn model_coords(q: int) -> (int, int, int, int) {
    let (a, b, c, d) = coords_of(q);
    (a as int, b as int, c as int, d as int)
}

/// The bit index of a model position is well formed and recovers the
/// position.
proof fn lemma_model_coords_inverse(q: int)
    requires
        0 <= q < 81,
    ensures
        ({
            let (a, b, c, d) = model_coords(q);
            &&& 0 <= a < 3
            &&& 0 <= b < 3
            &&& 0 <= c < 3
            &&& 0 <= d < 3
            &&& 0 <= bit_pos(a, b, c, d) < 81
            &&& cell_index(a, b, c, d) == q
        }),
{
    vstd::arithmetic::div_mod::lemma_fundamental_div_mod(q, 27);
    vstd::arithmetic::div_mod::lemma_fundamental_div_mod(q % 27, 9);
    vstd::arithmetic::div_mod::lemma_fundamental_div_mod(q % 27 % 9, 3);
}

/// The packed and the straightforward turn rules agree on every balanced
/// board: the parity of the occupied cells names the stored mover.
pub proof fn lemma_turn_agrees(bb: BitBoard, m: BoardModel)
    requires
        encodes(bb, m),
        m.wf(),
        m.balanced(),
    ensures
        bm_turn(bb@) == m.to_move,
{
    lemma_count_bits_occupied(bb, m);
    lemma_count_occupied_marks(m.cells, 81);
    assert(m.cells.take(81) =~= m.cells);
    let m1 = m.marks(Player::Player1);
    let m2 = m.marks(Player::Player2);
    assert(count_bits(bb@.p1 | bb@.p2, 81) == m1 + m2);
    if m.to_move == Player::Player1 {
        assert((2 * m2) % 2 == 0) by {
            vstd::arithmetic::div_mod::lemma_mod_multiples_basic(m2, 2);
        }
    } else {
        assert((2 * m2 + 1) % 2 == 1) by {
            vstd::arithmetic::div_mod::lemma_mod_multiples_vanish(m2, 1, 2);
        }
    }
}

/// Applying the same legal move to a board and to its packed encoding
/// yields the same position: the decoded successor is the straightforward
/// successor, up to the dropped subboard coordinates of the last move.
#[verifier::rlimit(100)]
#[verifier::spinoff_prover]
proof fn lemma_apply_agrees(bb: BitBoard, m: BoardModel, mv: (usize, usize, usize, usize))
    requires
        encodes(bb, m),
        m.wf(),
        m.balanced(),
        mv.0 < 3,
        mv.1 < 3,
        mv.2 < 3,
        mv.3 < 3,
        m.move_ok(mv),
    ensures
        bm_to_model(bm_apply(bb@, bit_pos(mv.0 as int, mv.1 as int, mv.2 as int, mv.3 as int)))
            == normalized(m.apply(mv)),
{
    let i = bit_pos(mv.0 as int, mv.1 as int, mv.2 as int, mv.3 as int);
    lemma_bit_pos_coords(mv.0 as int, mv.1 as int, mv.2 as int, mv.3 as int);
    crate::board::lemma_cell_index_coords(mv.0 as int, mv.1 as int, mv.2 as int, mv.3 as int);
    let bm2 = bm_apply(bb@, i);
    let m2 = m.apply(mv);
    lemma_turn_agrees(bb, m);
    lemma_bit_or(bb@.p1, 1u128 << (i as u128));
    lemma_bit_or(bb@.p2, 1u128 << (i as u128));
    lemma_bit_pow2(i as u128);
    assert(bb.tile_at(mv.0 as int, mv.1 as int, mv.2 as int, mv.3 as int) == m.cell(
        mv.0 as int,
        mv.1 as int,
        mv.2 as int,
        mv.3 as int,
    ));
    assert forall|p: int| 0 <= p < 81 implies bm_to_model(bm2).cells[p] == m2.cells[p] by {
        lemma_model_coords_inverse(p);
        let (a, b, c, d) = model_coords(p);
        crate::board::lemma_cell_index_coords(a, b, c, d);
        lemma_bit_pos_coords(a, b, c, d);
        assert(bb.tile_at(a, b, c, d) == m.cell(a, b, c, d));
        if bit_pos(a, b, c, d) == i {
            assert((a, b, c, d) == (mv.0 as int, mv.1 as int, mv.2 as int, mv.3 as int));
            assert(p == cell_index(mv.0 as int, mv.1 as int, mv.2 as int, mv.3 as int));
        } else {
            assert(p != cell_index(mv.0 as int, mv.1 as int, mv.2 as int, mv.3 as int));
        }
    }
    assert(bm_to_model(bm2).cells =~= m2.cells);
    crate::board::lemma_move_preserves_balance(m, mv);
    crate::board::lemma_balanced_turn(m2);
    assert(bm_to_model(bm2) == normalized(m2));
}

/// The packed and the straightforward move generators produce the same
/// successors in the same order, on every balanced and consistent board:
/// each decoded packed successor is the corresponding straightforward
/// successor, up to the dropped subboard coordinates of its last move.
pub proof fn lemma_next_boards_agree(bb: BitBoard, m: BoardModel)
    requires
        encodes(bb, m),
        m.wf(),
        m.balanced(),
        m.consistent(),
    ensures
        bm_next(bb@).len() == m.legal_seq().len(),
        forall|idx: int|
            0 <= idx < m.legal_seq().len() ==> bm_to_model(#[trigger] bm_next(bb@)[idx])
                == normalized(m.legal_seq()[idx]),
{
    lemma_winner_agrees(bb, m);
    lemma_legal_moves_agree(bb, m);
    if super_won_cells(bb@.p1) || super_won_cells(bb@.p2) {
        crate::board::lemma_legal_prefix_all_blocked(m, 81);
        assert forall|k: int| 0 <= k < 81 implies !#[trigger] m.move_ok(coords_of(k)) by {
            assert(m.winner() is Some);
        }
    } else {
        lemma_next_prefix_agree(bb, m, 81);
    }
}

/// The prefix form of [`lemma_next_boards_agree`].
#[verifier::rlimit(100)]
#[verifier::spinoff_prover]
proof fn lemma_next_prefix_agree(bb: BitBoard, m: BoardModel, n: int)
    requires
        encodes(bb, m),
        m.wf(),
        m.balanced(),
        m.consistent(),
        !(super_won_cells(bb@.p1) || super_won_cells(bb@.p2)),
        0 <= n <= 81,
        forall|mv: (usize, usize, usize, usize)|
            mv.0 < 3 && mv.1 < 3 && mv.2 < 3 && mv.3 < 3 ==> (#[trigger] m.move_ok(mv) <==> (!(
            super_won_cells(bb@.p1) || super_won_cells(bb@.p2)) && bm_move_allowed(
                bb@,
                bit_pos(mv.0 as int, mv.1 as int, mv.2 as int, mv.3 as int),
            ))),
    ensures
        bm_next_prefix(bb@, n).len() == m.legal_prefix(n).len(),
        forall|idx: int|
            0 <= idx < m.legal_prefix(n).len() ==> bm_to_model(
                #[trigger] bm_next_prefix(bb@, n)[idx],
            ) == normalized(m.legal_prefix(n)[idx]),
    decreases n,
{
    if n > 0 {
        lemma_next_prefix_agree(bb, m, n - 1);
        lemma_model_coords_inverse(n - 1);
        let (a, b, c, d) = model_coords(n - 1);
        let mv = (a as usize, b as usize, c as usize, d as usize);
        crate::board::lemma_cell_index_coords(a, b, c, d);
        assert(coords_of(n - 1) == mv);
        assert(bit_of_model_idx(n - 1) == bit_pos(
            mv.0 as int,
            mv.1 as int,
            mv.2 as int,
            mv.3 as int,
        ));
        assert(m.move_ok(mv) <==> bm_move_allowed(bb@, bit_of_model_idx(n - 1)));
        if m.move_ok(mv) {
            lemma_apply_agrees(bb, m, mv);
            assert forall|idx: int| 0 <= idx < m.legal_prefix(n).len() implies bm_to_model(
                #[trigger] bm_next_prefix(bb@, n)[idx],
            ) == normalized(m.legal_prefix(n)[idx]) by {
                if idx < m.legal_prefix(n - 1).len() {
                    assert(bm_next_prefix(bb@, n)[idx] == bm_next_prefix(bb@, n - 1)[idx]);
                    assert(m.legal_prefix(n)[idx] == m.legal_prefix(n - 1)[idx]);
                } else {
                    assert(bm_next_prefix(bb@, n)[idx] == bm_apply(bb@, bit_of_model_idx(n - 1)));
                    assert(m.legal_prefix(n)[idx] == m.apply(mv));
                }
            }
        }
    }
}

/// The bit index and intra-subboard coordinates of the cell with flat
/// model index `q`.
#[verifier::rlimit(100)]
#[verifier::spinoff_prover]
fn split_model_idx(q: usize) -> (r: (usize, usize, usize))
    requires
        q < 81,
    ensures
        r.0 < 81,
        r.0 as int == bit_of_model_idx(q as int),
        bit_coords_of(r.0 as int).2 == r.1 as int,
        bit_coords_of(r.0 as int).3 == r.2 as int,
        r.1 < 3,
        r.2 < 3,
{
    let sr = q / 27;
    let sc = (q % 27) / 9;
    let cr = (q % 9) / 3;
    let cc = q % 3;
    let n = 27 * sr + 9 * cr + 3 * sc + cc;
    proof {
        lemma_model_coords_inverse(q as int);
        assert(model_coords(q as int) == (sr as int, sc as int, cr as int, cc as int));
        assert(n as int == bit_of_model_idx(q as int));
        lemma_bit_pos_coords(sr as int, sc as int, cr as int, cc as int);
    }
    (n, cr, cc)
}

/// The bit coordinates of a board position are its coordinates: decoding
/// the index recovers it.
#[verifier::rlimit(100)]
#[verifier::spinoff_prover]
proof fn lemma_bit_coords_inverse(i: int)
    requires
        0 <= i < 81,
    ensures
        ({
            let (a, b, c, d) = bit_coords_of(i);
            &&& 0 <= a < 3
            &&& 0 <= b < 3
            &&& 0 <= c < 3
            &&& 0 <= d < 3
            &&& bit_pos(a, b, c, d) == i
        }),
{
    vstd::arithmetic::div_mod::lemma_fundamental_div_mod(i, 27);
    vstd::arithmetic::div_mod::lemma_fundamental_div_mod(i % 27, 9);
    vstd::arithmetic::div_mod::lemma_fundamental_div_mod(i % 27 % 9, 3);
    vstd::arithmetic::div_mod::lemma_fundamental_div_mod(i, 9);
    vstd::arithmetic::div_mod::lemma_fundamental_div_mod(i % 9, 3);
}

/// A board's model with the subboard coordinates of its last move dropped:
/// only the forced subboard — the cell-row and cell-column — is kept, as
/// the packed form stores it.  On boards whose last move already has zero
/// subboard coordinates this changes nothing.
pub open spec fn normalized(m: BoardModel) -> BoardModel {
    BoardModel {
        cells: m.cells,
        to_move: m.to_move,
        last: match m.last {
            None => None,
            Some((_, _, y, x)) => Some((0usize, 0usize, y, x)),
        },
    }
}

/// Round trip: packing a balanced board and decoding it again restores the
/// board exactly, up to the dropped subboard coordinates of the last move.
/// The premises are exactly what [`BitBoard::from_board`] ensures, and
/// [`BitBoard::to_board`] returns `to_model`, so converting any balanced
/// board to the packed form and back yields `normalized` of the original —
/// the identity whenever the last move is absent or already normalized
/// ([`lemma_normalized_identity`]).  Every board reachable from the empty
/// board is balanced.
pub proof fn lemma_round_trip(bb: BitBoard, m: BoardModel)
    requires
        m.wf(),
        m.balanced(),
        forall|a: int, b: int, c: int, d: int|
            0 <= a < 3 && 0 <= b < 3 && 0 <= c < 3 && 0 <= d < 3 ==> #[trigger] bb.tile_at(
                a,
                b,
                c,
                d,
            ) == m.cell(a, b, c, d),
        bb.last_forced() == (match m.last {
            None => None::<(usize, usize)>,
            Some((_, _, y, x)) => Some((y, x)),
        }),
    ensures
        bb.to_model() == normalized(m),
{
    assert forall|n: int| 0 <= n < 81 implies bb.to_model().cells[n] == m.cells[n] by {
        let (a, b, c, d) = coords_of(n);
        vstd::arithmetic::div_mod::lemma_fundamental_div_mod(n, 27);
        vstd::arithmetic::div_mod::lemma_fundamental_div_mod(n % 27, 9);
        vstd::arithmetic::div_mod::lemma_fundamental_div_mod(n % 27 % 9, 3);
        assert(bb.tile_at(a as int, b as int, c as int, d as int) == m.cell(
            a as int,
            b as int,
            c as int,
            d as int,
        ));
    }
    assert(bb.to_model().cells =~= m.cells);
    crate::board::lemma_balanced_turn(m);
}

/// Normalizing a board whose last move has zero subboard coordinates, or
/// none at all, changes nothing.
pub proof fn lemma_normalized_identity(m: BoardModel)
    requires
        match m.last {
            None => true,
            Some((a, b, _, _)) => a == 0 && b == 0,
        },
    ensures
        normalized(m) == m,
{
}

/// A per-player pair of aggregated corner masks.
#[derive(Clone, Copy)]
pub struct BoardCounts {
    pub player1: u128,
    pub player2: u128,
}

/// The packed board: one mask of cells per player, and the last move as a
/// single corner bit, if any.  The ghost `last_rc` names the forced
/// subboard that the last-move bit encodes.
#[derive(Clone, Copy)]
pub struct BitBoard {
    player1: u128,
    player2: u128,
    last_move: Option<u128>,
    last_rc: Ghost<(usize, usize)>,
}

impl View for BitBoard {
    type V = BitModel;

    open spec fn view(&self) -> BitModel {
        BitModel { p1: self.player1_mask(), p2: self.player2_mask(), last: self.last_forced() }
    }
}

impl BitBoard {
    /// A packed board encoding the same position as `board`: each mark
    /// becomes a bit, and the last move keeps only its forced subboard —
    /// the cell-row and cell-column of the move — as a corner bit.
    #[verifier::rlimit(80)]
    pub fn from_board(board: &Board) -> (r: BitBoard)
        requires
            board.wf(),
        ensures
            r.wf(),
            forall|a: int, b: int, c: int, d: int|
                0 <= a < 3 && 0 <= b < 3 && 0 <= c < 3 && 0 <= d < 3 ==> #[trigger] r.tile_at(
                    a,
                    b,
                    c,
                    d,
                ) == board@.cell(a, b, c, d),
            r.last_forced() == (match board@.last {
                None => None::<(usize, usize)>,
                Some((_, _, y, x)) => Some((y, x)),
            }),
            encodes(r, board@),
    {
        let mut p1: u128 = 0;
        let mut p2: u128 = 0;
        let mut n: usize = 0;
        proof {
            assert(0u128 >> 0u128 == 0 && 0u128 & 0u128 == 0) by (bit_vector);
        }
        while n < 81
            invariant
                board.wf(),
                n <= 81,
                p1 >> (n as u128) == 0,
                p2 >> (n as u128) == 0,
                p1 & p2 == 0,
                forall|i: int|
                    0 <= i < n ==> {
                        let (a, b, c, d) = #[trigger] bit_coords_of(i);
                        (bit(p1, i) <==> board@.cell(a, b, c, d) == Tile::Player1) && (bit(p2, i)
                            <==> board@.cell(a, b, c, d) == Tile::Player2)
                    },
            decreases 81 - n,
        {
            let sr = n / 27;
            let cr = (n % 27) / 9;
            let sc = (n % 9) / 3;
            let cc = n % 3;
            proof {
                vstd::arithmetic::div_mod::lemma_fundamental_div_mod(n as int, 27);
                vstd::arithmetic::div_mod::lemma_fundamental_div_mod((n % 27) as int, 9);
                vstd::arithmetic::div_mod::lemma_fundamental_div_mod((n % 9) as int, 3);
                vstd::arithmetic::div_mod::lemma_fundamental_div_mod(n as int, 9);
                assert((sr as int, sc as int, cr as int, cc as int) == bit_coords_of(n as int));
                assert(n as int == bit_pos(sr as int, sc as int, cr as int, cc as int));
            }
            let t = board.cell_at(sr, sc, cr, cc);
            let ghost old_p1 = p1;
            let ghost old_p2 = p2;
            let ghost bitm = 1u128 << (n as u128);
            match t {
                Tile::Player1 => {
                    p1 = p1 | (1u128 << (n as u128));
                },
                Tile::Player2 => {
                    p2 = p2 | (1u128 << (n as u128));
                },
                Tile::Empty => {},
            }
            proof {
                lemma_bit_pow2(n as u128);
                lemma_bit_or(old_p1, bitm);
                lemma_bit_or(old_p2, bitm);
                lemma_shr_zero_bits(old_p1, n as u128);
                lemma_shr_zero_bits(old_p2, n as u128);
                lemma_shr_zero_step(old_p1, n as u128);
                lemma_shr_zero_step(old_p2, n as u128);
                lemma_and_comm(old_p2 | bitm, old_p1);
                lemma_and_comm(old_p2, old_p1);
                lemma_disjoint_step(old_p1, old_p2, n as u128);
                lemma_disjoint_step(old_p2, old_p1, n as u128);
                assert(bit(p1, n as int) <==> t == Tile::Player1);
                assert(bit(p2, n as int) <==> t == Tile::Player2);
                assert forall|i: int| 0 <= i < n + 1 implies {
                    let (a, b, c, d) = #[trigger] bit_coords_of(i);
                    (bit(p1, i) <==> board@.cell(a, b, c, d) == Tile::Player1) && (bit(p2, i)
                        <==> board@.cell(a, b, c, d) == Tile::Player2)
                } by {
                    if i < n {
                        assert(bit(p1, i) <==> bit(old_p1, i));
                        assert(bit(p2, i) <==> bit(old_p2, i));
                    } else {
                        assert(i == n);
                        assert(bit_coords_of(i) == (sr as int, sc as int, cr as int, cc as int));
                    }
                }
            }
            n = n + 1;
        }
        proof {
            assert forall|a: int, b: int, c: int, d: int|
                0 <= a < 3 && 0 <= b < 3 && 0 <= c < 3 && 0 <= d < 3 implies {
                &&& (bit(p1, bit_pos(a, b, c, d)) <==> board@.cell(a, b, c, d) == Tile::Player1)
                &&& (bit(p2, bit_pos(a, b, c, d)) <==> board@.cell(a, b, c, d) == Tile::Player2)
            } by {
                lemma_bit_pos_coords(a, b, c, d);
            }
        }
        match board.get_last_move() {
            None => {
                BitBoard { player1: p1, player2: p2, last_move: None, last_rc: Ghost((0, 0)) }
            },
            Some((_, _, y, x)) => {
                let lbit = 1u128 << ((27 * y + 3 * x + 20) as u128);
                BitBoard { player1: p1, player2: p2, last_move: Some(lbit), last_rc: Ghost((y, x)) }
            },
        }
    }

    /// The forced subboard encoded in the last-move bit, recovered by
    /// scanning the nine corner positions.
    fn decode_last(&self) -> (r: (usize, usize))
        requires
            self.wf(),
            self.last_bit() is Some,
        ensures
            r == self.last_rc_spec(),
    {
        let m = match self.last_move {
            Some(l) => l,
            None => 0,
        };
        let mut sr: usize = 0;
        while sr < 3
            invariant
                self.wf(),
                self.last_bit() == Some(m),
                sr <= 3,
                forall|a: int, b: int|
                    0 <= a < sr && 0 <= b < 3 ==> m != (1u128 << (#[trigger] corner_pos(a, b)
                        as u128)),
            decreases 3 - sr,
        {
            let mut sc: usize = 0;
            while sc < 3
                invariant
                    self.wf(),
                    self.last_bit() == Some(m),
                    sr < 3,
                    sc <= 3,
                    forall|a: int, b: int|
                        0 <= a < sr && 0 <= b < 3 ==> m != (1u128 << (#[trigger] corner_pos(a, b)
                            as u128)),
                    forall|b: int|
                        0 <= b < sc ==> m != (1u128 << (#[trigger] corner_pos(sr as int, b)
                            as u128)),
                decreases 3 - sc,
            {
                if m == 1u128 << ((27 * sr + 3 * sc + 20) as u128) {
                    proof {
                        let rc = self.last_rc_spec();
                        lemma_pow2_injective(
                            corner_pos(sr as int, sc as int) as u128,
                            corner_pos(rc.0 as int, rc.1 as int) as u128,
                        );
                    }
                    return (sr, sc);
                }
                sc = sc + 1;
            }
            sr = sr + 1;
        }
        proof {
            let rc = self.last_rc_spec();
            assert(m == (1u128 << (corner_pos(rc.0 as int, rc.1 as int) as u128)));
            assert(false);
        }
        (0, 0)
    }

    /// The code of the tile in cell `(sr, sc, cr, cc)`.
    fn code_cell(&self, sr: usize, sc: usize, cr: usize, cc: usize) -> (r: u8)
        requires
            sr < 3,
            sc < 3,
            cr < 3,
            cc < 3,
        ensures
            r == crate::board::code_of_tile(self.tile_at(sr as int, sc as int, cr as int, cc as int)),
    {
        let i = 27 * sr + 9 * cr + 3 * sc + cc;
        if (self.player1 >> (i as u128)) & 1 == 1 {
            1
        } else if (self.player2 >> (i as u128)) & 1 == 1 {
            2
        } else {
            0
        }
    }

    /// One sub-row of cell codes.
    fn code_row(&self, sr: usize, sc: usize, cr: usize) -> (r: [u8; 3])
        requires
            sr < 3,
            sc < 3,
            cr < 3,
        ensures
            forall|d: int|
                0 <= d < 3 ==> r[d] == crate::board::code_of_tile(
                    self.tile_at(sr as int, sc as int, cr as int, d),
                ),
    {
        [self.code_cell(sr, sc, cr, 0), self.code_cell(sr, sc, cr, 1), self.code_cell(
            sr,
            sc,
            cr,
            2,
        )]
    }

    /// The cell codes of subboard `(sr, sc)`.
    fn code_sub(&self, sr: usize, sc: usize) -> (r: [[u8; 3]; 3])
        requires
            sr < 3,
            sc < 3,
        ensures
            forall|c: int, d: int|
                0 <= c < 3 && 0 <= d < 3 ==> r[c][d] == crate::board::code_of_tile(
                    self.tile_at(sr as int, sc as int, c, d),
                ),
    {
        [self.code_row(sr, sc, 0), self.code_row(sr, sc, 1), self.code_row(sr, sc, 2)]
    }

    /// The cell codes of one row of subboards.
    fn code_sub_row(&self, sr: usize) -> (r: [[[u8; 3]; 3]; 3])
        requires
            sr < 3,
        ensures
            forall|b: int, c: int, d: int|
                0 <= b < 3 && 0 <= c < 3 && 0 <= d < 3 ==> r[b][c][d] == crate::board::code_of_tile(
                    self.tile_at(sr as int, b, c, d),
                ),
    {
        [self.code_sub(sr, 0), self.code_sub(sr, 1), self.code_sub(sr, 2)]
    }

    /// The straightforward board this packed board encodes.
    pub fn to_board(&self) -> (r: Board)
        requires
            self.wf(),
        ensures
            r@ == self.to_model(),
            r.wf(),
    {
        let arr = [self.code_sub_row(0), self.code_sub_row(1), self.code_sub_row(2)];
        let last = match self.last_move {
            None => None,
            Some(_) => {
                let (y, x) = self.decode_last();
                Some((0usize, 0usize, y, x))
            },
        };
        proof {
            assert forall|a: int, b: int, c: int, d: int|
                0 <= a < 3 && 0 <= b < 3 && 0 <= c < 3 && 0 <= d < 3 implies #[trigger] crate::board::code_at(
                arr,
                a,
                b,
                c,
                d,
            ) == crate::board::code_of_tile(self.tile_at(a, b, c, d)) by {}
        }
        let rb = Board::create_board(arr, last);
        let b = rb.unwrap();
        proof {
            assert(b@.cells =~= self.to_model().cells);
            assert(b@ == self.to_model());
        }
        b
    }

    /// Both players' won subboards, each aggregated onto the corner bits.
    pub fn all_wins(&self) -> (r: BoardCounts)
        ensures
            forall|a: int, b: int|
                0 <= a < 3 && 0 <= b < 3 ==> (#[trigger] bit(r.player1, corner_pos(a, b))
                    <==> sub_won(self.player1_mask(), a, b)),
            forall|a: int, b: int|
                0 <= a < 3 && 0 <= b < 3 ==> (#[trigger] bit(r.player2, corner_pos(a, b))
                    <==> sub_won(self.player2_mask(), a, b)),
            forall|i: int|
                #[trigger] bit(r.player1, i) ==> i < 81 && (i % 27 == 20 || i % 27 == 23 || i % 27
                    == 26),
            forall|i: int|
                #[trigger] bit(r.player2, i) ==> i < 81 && (i % 27 == 20 || i % 27 == 23 || i % 27
                    == 26),
            r.player1 & CORNER_MASK == r.player1,
            r.player2 & CORNER_MASK == r.player2,
    {
        let player1 = all_wins_single(self.player1);
        let player2 = all_wins_single(self.player2);
        BoardCounts { player1, player2 }
    }

    /// The winner of a complete column of subboards, read off the corner
    /// masks.
    fn overall_col_win(&self, wins: &BoardCounts) -> (r: Option<Player>)
        requires
            wins.player1 & CORNER_MASK == wins.player1,
            wins.player2 & CORNER_MASK == wins.player2,
        ensures
            r == pick_winner(super_col_won(wins.player1), super_col_won(wins.player2)),
    {
        let onestep = (wins.player1 << 27) & OVERALL_COL_MASK;
        let twostep = (wins.player1 << 54) & OVERALL_COL_MASK;
        let player1 = wins.player1 & onestep & twostep;
        let onestep = (wins.player2 << 27) & OVERALL_COL_MASK;
        let twostep = (wins.player2 << 54) & OVERALL_COL_MASK;
        let player2 = wins.player2 & onestep & twostep;
        proof {
            let w1 = wins.player1;
            let w2 = wins.player2;
            let cm = CORNER_MASK;
            let m = OVERALL_COL_MASK;
            assert((w1 & cm == w1) ==> ((w1 & ((w1 << 27) & m) & ((w1 << 54) & m) != 0) <==> (((w1
                >> 20) & 1 == 1 && (w1 >> 47) & 1 == 1 && (w1 >> 74) & 1 == 1) || ((w1 >> 23) & 1
                == 1 && (w1 >> 50) & 1 == 1 && (w1 >> 77) & 1 == 1) || ((w1 >> 26) & 1 == 1 && (w1
                >> 53) & 1 == 1 && (w1 >> 80) & 1 == 1)))) by (bit_vector)
                requires
                    cm
                        == 0b100_100_100_000_000_000_000_000_000_100_100_100_000_000_000_000_000_000_100_100_100_000_000_000_000_000_000u128,
                    m
                        == 0b111_111_111_111_111_111_000_000_000_111_111_111_111_111_111_000_000_000_111_111_111_111_111_111_000_000_000u128,
            ;
            assert((w2 & cm == w2) ==> ((w2 & ((w2 << 27) & m) & ((w2 << 54) & m) != 0) <==> (((w2
                >> 20) & 1 == 1 && (w2 >> 47) & 1 == 1 && (w2 >> 74) & 1 == 1) || ((w2 >> 23) & 1
                == 1 && (w2 >> 50) & 1 == 1 && (w2 >> 77) & 1 == 1) || ((w2 >> 26) & 1 == 1 && (w2
                >> 53) & 1 == 1 && (w2 >> 80) & 1 == 1)))) by (bit_vector)
                requires
                    cm
                        == 0b100_100_100_000_000_000_000_000_000_100_100_100_000_000_000_000_000_000_100_100_100_000_000_000_000_000_000u128,
                    m
                        == 0b111_111_111_111_111_111_000_000_000_111_111_111_111_111_111_000_000_000_111_111_111_111_111_111_000_000_000u128,
            ;
        }
        if player1 > 0 {
            Some(Player::Player1)
        } else if player2 > 0 {
            Some(Player::Player2)
        } else {
            None
        }
    }

    /// The winner of a complete row of subboards, read off the corner
    /// masks.
    fn overall_row_win(&self, wins: &BoardCounts) -> (r: Option<Player>)
        requires
            wins.player1 & CORNER_MASK == wins.player1,
            wins.player2 & CORNER_MASK == wins.player2,
        ensures
            r == pick_winner(super_row_won(wins.player1), super_row_won(wins.player2)),
    {
        let onestep = (wins.player1 << 3) & OVERALL_ROW_MASK;
        let twostep = (wins.player1 << 6) & OVERALL_ROW_MASK;
        let player1 = wins.player1 & onestep & twostep;
        let onestep = (wins.player2 << 3) & OVERALL_ROW_MASK;
        let twostep = (wins.player2 << 6) & OVERALL_ROW_MASK;
        let player2 = wins.player2 & onestep & twostep;
        proof {
            let w1 = wins.player1;
            let w2 = wins.player2;
            let cm = CORNER_MASK;
            let m = OVERALL_ROW_MASK;
            assert((w1 & cm == w1) ==> ((w1 & ((w1 << 3) & m) & ((w1 << 6) & m) != 0) <==> (((w1
                >> 20) & 1 == 1 && (w1 >> 23) & 1 == 1 && (w1 >> 26) & 1 == 1) || ((w1 >> 47) & 1
                == 1 && (w1 >> 50) & 1 == 1 && (w1 >> 53) & 1 == 1) || ((w1 >> 74) & 1 == 1 && (w1
                >> 77) & 1 == 1 && (w1 >> 80) & 1 == 1)))) by (bit_vector)
                requires
                    cm
                        == 0b100_100_100_000_000_000_000_000_000_100_100_100_000_000_000_000_000_000_100_100_100_000_000_000_000_000_000u128,
                    m
                        == 0b110_110_110_110_110_110_110_110_110_110_110_110_110_110_110_110_110_110_110_110_110_110_110_110_110_110_110u128,
            ;
            assert((w2 & cm == w2) ==> ((w2 & ((w2 << 3) & m) & ((w2 << 6) & m) != 0) <==> (((w2
                >> 20) & 1 == 1 && (w2 >> 23) & 1 == 1 && (w2 >> 26) & 1 == 1) || ((w2 >> 47) & 1
                == 1 && (w2 >> 50) & 1 == 1 && (w2 >> 53) & 1 == 1) || ((w2 >> 74) & 1 == 1 && (w2
                >> 77) & 1 == 1 && (w2 >> 80) & 1 == 1)))) by (bit_vector)
                requires
                    cm
                        == 0b100_100_100_000_000_000_000_000_000_100_100_100_000_000_000_000_000_000_100_100_100_000_000_000_000_000_000u128,
                    m
                        == 0b110_110_110_110_110_110_110_110_110_110_110_110_110_110_110_110_110_110_110_110_110_110_110_110_110_110_110u128,
            ;
        }
        if player1 > 0 {
            Some(Player::Player1)
        } else if player2 > 0 {
            Some(Player::Player2)
        } else {
            None
        }
    }

    /// The winner of the falling diagonal of subboards.
    fn overall_left_right_win(&self, wins: &BoardCounts) -> (r: Option<Player>)
        ensures
            r == pick_winner(super_lr_won(wins.player1), super_lr_won(wins.player2)),
    {
        let player1_win = wins.player1 & OVERALL_LEFT_RIGHT_WIN == OVERALL_LEFT_RIGHT_WIN;
        let player2_win = wins.player2 & OVERALL_LEFT_RIGHT_WIN == OVERALL_LEFT_RIGHT_WIN;
        proof {
            let w1 = wins.player1;
            let w2 = wins.player2;
            let d = OVERALL_LEFT_RIGHT_WIN;
            assert(((w1 & d == d) <==> ((w1 >> 20) & 1 == 1 && (w1 >> 50) & 1 == 1 && (w1 >> 80) & 1
                == 1)) && ((w2 & d == d) <==> ((w2 >> 20) & 1 == 1 && (w2 >> 50) & 1 == 1 && (w2
                >> 80) & 1 == 1))) by (bit_vector)
                requires
                    d
                        == 0b100_000_000_000_000_000_000_000_000_000_100_000_000_000_000_000_000_000_000_000_100_000_000_000_000_000_000u128,
            ;
        }
        if player1_win {
            Some(Player::Player1)
        } else if player2_win {
            Some(Player::Player2)
        } else {
            None
        }
    }

    /// The winner of the rising diagonal of subboards.
    fn overall_right_left_win(&self, wins: &BoardCounts) -> (r: Option<Player>)
        ensures
            r == pick_winner(super_rl_won(wins.player1), super_rl_won(wins.player2)),
    {
        let player1_win = wins.player1 & OVERALL_RIGHT_LEFT_WIN == OVERALL_RIGHT_LEFT_WIN;
        let player2_win = wins.player2 & OVERALL_RIGHT_LEFT_WIN == OVERALL_RIGHT_LEFT_WIN;
        proof {
            let w1 = wins.player1;
            let w2 = wins.player2;
            let d = OVERALL_RIGHT_LEFT_WIN;
            assert(((w1 & d == d) <==> ((w1 >> 26) & 1 == 1 && (w1 >> 50) & 1 == 1 && (w1 >> 74) & 1
                == 1)) && ((w2 & d == d) <==> ((w2 >> 26) & 1 == 1 && (w2 >> 50) & 1 == 1 && (w2
                >> 74) & 1 == 1))) by (bit_vector)
                requires
                    d
                        == 0b000_000_100_000_000_000_000_000_000_000_100_000_000_000_000_000_000_000_100_000_000_000_000_000_000_000_000u128,
            ;
        }
        if player1_win {
            Some(Player::Player1)
        } else if player2_win {
            Some(Player::Player2)
        } else {
            None
        }
    }

    /// Completely filled subboards, marked at the corner bits: the corner
    /// bit of subboard `(sr, sc)` is set exactly when all nine of its
    /// cells are occupied.  Bits off the corner positions are noise.
    fn full_boards(&self) -> (r: u128)
        ensures
            forall|a: int, b: int|
                0 <= a < 3 && 0 <= b < 3 ==> (#[trigger] bit(r, corner_pos(a, b)) <==> sub_full_bits(
                    self.player1_mask() | self.player2_mask(),
                    a,
                    b,
                )),
    {
        let combined = self.player1 | self.player2;
        let cw = col_wins_single(combined);
        let r = row_wins_single(cw);
        proof {
            assert forall|a: int, b: int| 0 <= a < 3 && 0 <= b < 3 implies (#[trigger] bit(
                r,
                corner_pos(a, b),
            ) <==> sub_full_bits(combined, a, b)) by {
                let c = corner_pos(a, b);
                vstd::arithmetic::div_mod::lemma_fundamental_div_mod_converse(
                    c,
                    3,
                    9 * a + b + 6,
                    2,
                );
                vstd::arithmetic::div_mod::lemma_fundamental_div_mod_converse(
                    c,
                    27,
                    a,
                    3 * b + 20,
                );
                vstd::arithmetic::div_mod::lemma_fundamental_div_mod_converse(
                    c - 1,
                    27,
                    a,
                    3 * b + 19,
                );
                vstd::arithmetic::div_mod::lemma_fundamental_div_mod_converse(
                    c - 2,
                    27,
                    a,
                    3 * b + 18,
                );
                if bit(r, c) {
                    assert(bit(combined, c) && bit(combined, c - 1) && bit(combined, c - 2) && bit(
                        combined,
                        c - 9,
                    ) && bit(combined, c - 10) && bit(combined, c - 11) && bit(combined, c - 18)
                        && bit(combined, c - 19) && bit(combined, c - 20));
                    assert forall|cr: int, cc: int| 0 <= cr < 3 && 0 <= cc < 3 implies bit(
                        combined,
                        #[trigger] bit_pos(a, b, cr, cc),
                    ) by {
                        assert(bit_pos(a, b, cr, cc) == c - 9 * (2 - cr) - (2 - cc));
                    }
                } else {
                    if sub_full_bits(combined, a, b) {
                        assert(bit(combined, bit_pos(a, b, 0, 0)) && bit(
                            combined,
                            bit_pos(a, b, 0, 1),
                        ) && bit(combined, bit_pos(a, b, 0, 2)) && bit(combined, bit_pos(a, b, 1, 0))
                            && bit(combined, bit_pos(a, b, 1, 1)) && bit(
                            combined,
                            bit_pos(a, b, 1, 2),
                        ) && bit(combined, bit_pos(a, b, 2, 0)) && bit(combined, bit_pos(a, b, 2, 1))
                            && bit(combined, bit_pos(a, b, 2, 2)));
                        assert(bit(cw, c) && bit(cw, c - 1) && bit(cw, c - 2));
                        assert(bit(r, c));
                        assert(false);
                    }
                }
            }
        }
        r
    }

    /// The super-board winner read off a pair of corner masks: each line
    /// direction is checked for the first player first, and a later
    /// direction's finding replaces an earlier one.
    pub fn who_win(&self, wins: BoardCounts) -> (r: Option<Player>)
        requires
            wins.player1 & CORNER_MASK == wins.player1,
            wins.player2 & CORNER_MASK == wins.player2,
        ensures
            r == who_win_spec(wins.player1, wins.player2),
            r is Some <==> (super_any_won(wins.player1) || super_any_won(wins.player2)),
    {
        let row = self.overall_row_win(&wins);
        let col = self.overall_col_win(&wins);
        let left_right = self.overall_left_right_win(&wins);
        let right_left = self.overall_right_left_win(&wins);
        let mut cumulative_win = None;
        if row.is_some() {
            cumulative_win = row;
        }
        if col.is_some() {
            cumulative_win = col;
        }
        if left_right.is_some() {
            cumulative_win = left_right;
        }
        if right_left.is_some() {
            cumulative_win = right_left;
        }
        cumulative_win
    }

    /// Whose turn it is: the first player's when an even number of cells
    /// is occupied.
    pub fn who_turn(&self) -> (r: Player)
        ensures
            r == bm_turn(self@),
    {
        let combined = self.player1 | self.player2;
        let mut cnt: u32 = 0;
        let mut i: usize = 0;
        while i < 81
            invariant
                combined == self.player1_mask() | self.player2_mask(),
                i <= 81,
                cnt == count_bits(combined, i as int),
                cnt <= i,
            decreases 81 - i,
        {
            if (combined >> (i as u128)) & 1 == 1 {
                cnt = cnt + 1;
            }
            i = i + 1;
        }
        if cnt % 2 == 0 {
            Player::Player1
        } else {
            Player::Player2
        }
    }

    /// The cells no legal move may mark: occupied cells, every cell of a
    /// won subboard, and — when the last move's subboard is undecided —
    /// every cell outside it.
    #[verifier::rlimit(100)]
    fn not_allowed_moves(&self) -> (r: u128)
        requires
            self.wf(),
        ensures
            forall|i: int| 0 <= i < 81 ==> (#[trigger] bit(r, i) <==> !bm_move_allowed(self@, i)),
    {
        let wins = self.all_wins();
        let filled_tiles = self.player1 | self.player2;
        let combined_wins = wins.player1 | wins.player2;
        let full = self.full_boards();
        let last_move_mask = match self.last_move {
            Some(m) => {
                proof {
                    let rc = self.last_rc_spec();
                    lemma_corner_bit_shaped(rc.0 as u128, rc.1 as u128);
                    lemma_bit_or(wins.player1, wins.player2);
                    lemma_bit_or(combined_wins, full);
                    lemma_pow2_and(combined_wins | full, (27 * rc.0 + 3 * rc.1 + 20) as u128);
                }
                if m & (combined_wins | full) == 0 {
                    let ctm = count_to_mask(m);
                    proof {
                        lemma_bit_not(ctm);
                        lemma_bit_and(!ctm, WHOLE_BOARD_MASK);
                        lemma_whole_mask_bits();
                        assert forall|i: int| 0 <= i < 81 implies (#[trigger] bit(
                            !ctm & WHOLE_BOARD_MASK,
                            i,
                        ) <==> !bit(m, corner_pos(i / 27, (i % 9) / 3))) by {
                            assert(bit(ctm, i) <==> bit(m, corner_pos(i / 27, (i % 9) / 3)));
                        }
                    }
                    !ctm & WHOLE_BOARD_MASK
                } else {
                    0
                }
            },
            None => 0,
        };
        proof {
            let cm = CORNER_MASK;
            let w1 = wins.player1;
            let w2 = wins.player2;
            assert((w1 & cm == w1 && w2 & cm == w2) ==> ((w1 | w2) & cm == (w1 | w2)))
                by (bit_vector);
        }
        let wins_mask = count_to_mask(combined_wins);
        let r = wins_mask | filled_tiles | last_move_mask;
        proof {
            lemma_zero_bits();
            lemma_bit_or(wins.player1, wins.player2);
            lemma_bit_or(self.player1_mask(), self.player2_mask());
            lemma_bit_or(wins_mask, filled_tiles);
            lemma_bit_or(wins_mask | filled_tiles, last_move_mask);
            assert forall|i: int| 0 <= i < 81 implies (#[trigger] bit(r, i) <==> !bm_move_allowed(
                self@,
                i,
            )) by {
                let (a, b, c, d) = bit_coords_of(i);
                vstd::arithmetic::div_mod::lemma_fundamental_div_mod(i, 27);
                vstd::arithmetic::div_mod::lemma_fundamental_div_mod(i % 27, 9);
                vstd::arithmetic::div_mod::lemma_fundamental_div_mod(i % 27 % 9, 3);
                vstd::arithmetic::div_mod::lemma_fundamental_div_mod(i, 9);
                vstd::arithmetic::div_mod::lemma_fundamental_div_mod(i % 9, 3);
                assert(0 <= a < 3 && 0 <= b < 3);
                assert(corner_pos(a, b) == 27 * (i / 27) + 3 * ((i % 9) / 3) + 20);
                assert(bit(r, i) <==> (bit(wins_mask, i) || bit(filled_tiles, i) || bit(
                    last_move_mask,
                    i,
                )));
                assert(bit(wins_mask, i) <==> bit(combined_wins, corner_pos(a, b)));
                assert(bit(combined_wins, corner_pos(a, b)) <==> (sub_won(self@.p1, a, b)
                    || sub_won(self@.p2, a, b)));
                assert(bit(filled_tiles, i) <==> (bit(self@.p1, i) || bit(self@.p2, i)));
                match self.last_bit() {
                    Some(m) => {
                        let rc = self.last_rc_spec();
                        let y = rc.0 as int;
                        let x = rc.1 as int;
                        lemma_bit_pow2((27 * rc.0 + 3 * rc.1 + 20) as u128);
                        assert(corner_pos(y, x) == 27 * rc.0 + 3 * rc.1 + 20);
                        assert(bit(combined_wins | full, corner_pos(y, x)) <==> (sub_won(
                            self@.p1,
                            y,
                            x,
                        ) || sub_won(self@.p2, y, x) || sub_full_bits(self@.p1 | self@.p2, y, x)));
                        if m & (combined_wins | full) == 0 {
                            assert(bit(last_move_mask, i) <==> !bit(m, corner_pos(a, b)));
                            assert(bit(m, corner_pos(a, b)) <==> corner_pos(a, b) == corner_pos(
                                y,
                                x,
                            ));
                            assert(corner_pos(a, b) == corner_pos(y, x) <==> (a == y && b == x));
                        } else {
                            assert(last_move_mask == 0);
                        }
                    },
                    None => {
                        assert(last_move_mask == 0);
                    },
                }
            }
        }
        r
    }


    /// The packed boards reachable from this one by a single legal move,
    /// in ascending order of the marked cell's bit index.
    #[verifier::rlimit(100)]
    pub fn get_legal_boards(&self) -> (r: Vec<BitBoard>)
        requires
            self.wf(),
        ensures
            r@.map_values(|x: BitBoard| x@) == bm_next(self@),
            forall|k: int| 0 <= k < r@.len() ==> (#[trigger] r@[k]).wf(),
    {
        let wins = self.all_wins();
        proof {
            assert(corner_pos(0, 0) == 20 && corner_pos(0, 1) == 23 && corner_pos(0, 2) == 26
                && corner_pos(1, 0) == 47 && corner_pos(1, 1) == 50 && corner_pos(1, 2) == 53
                && corner_pos(2, 0) == 74 && corner_pos(2, 1) == 77 && corner_pos(2, 2) == 80);
        }
        proof {
            assert forall|a: int, b: int| 0 <= a < 3 && 0 <= b < 3 implies (#[trigger] bit(
                wins.player1,
                corner_pos(a, b),
            ) <==> sub_won(self@.p1, a, b)) && (bit(wins.player2, corner_pos(a, b)) <==> sub_won(
                self@.p2,
                a,
                b,
            )) by {}
        }
        if self.who_win(wins).is_some() {
            let v: Vec<BitBoard> = Vec::new();
            proof {
                assert(v@.map_values(|x: BitBoard| x@) =~= bm_next(self@));
            }
            return v;
        }
        let not_allowed = self.not_allowed_moves();
        let me = self.who_turn();
        let mut states: Vec<BitBoard> = Vec::new();
        let mut q: usize = 0;
        while q < 81
            invariant
                self.wf(),
                q <= 81,
                me == bm_turn(self@),
                forall|i: int|
                    0 <= i < 81 ==> (#[trigger] bit(not_allowed, i) <==> !bm_move_allowed(
                        self@,
                        i,
                    )),
                !(super_won_cells(self@.p1) || super_won_cells(self@.p2)),
                states@.map_values(|x: BitBoard| x@) =~= bm_next_prefix(self@, q as int),
                forall|k: int| 0 <= k < states@.len() ==> (#[trigger] states@[k]).wf(),
            decreases 81 - q,
        {
            let (n, cr, cc) = split_model_idx(q);
            if (not_allowed >> (n as u128)) & 1 == 0 {
                proof {
                    assert(!bit(not_allowed, n as int));
                    assert(bm_move_allowed(self@, n as int));
                }
                let nb = self.successor(n, cr, cc, me);
                states.push(nb);
            } else {
                proof {
                    lemma_bit01(not_allowed, n as u128);
                    assert(bit(not_allowed, n as int));
                    assert(!bm_move_allowed(self@, n as int));
                }
            }
            proof {
                assert(states@.map_values(|x: BitBoard| x@) =~= bm_next_prefix(self@, q + 1));
            }
            q = q + 1;
        }
        proof {
            assert(bm_next_prefix(self@, 81) == bm_next(self@));
        }
        states
    }

    /// The packed board after the player to move marks the empty cell
    /// with bit index `n`, whose intra-subboard coordinates are
    /// `(cr, cc)`.
    #[verifier::rlimit(100)]
    #[verifier::spinoff_prover]
    fn successor(&self, n: usize, cr: usize, cc: usize, me: Player) -> (nb: BitBoard)
        requires
            self.wf(),
            n < 81,
            cr < 3,
            cc < 3,
            bit_coords_of(n as int).2 == cr as int,
            bit_coords_of(n as int).3 == cc as int,
            !bit(self.player1_mask(), n as int),
            !bit(self.player2_mask(), n as int),
            me == bm_turn(self@),
        ensures
            nb@ == bm_apply(self@, n as int),
            nb.wf(),
    {
        proof {
            lemma_bit01(self.player1_mask(), n as u128);
            lemma_bit01(self.player2_mask(), n as u128);
            lemma_and_comm(self.player2_mask(), self.player1_mask());
            lemma_disjoint_set(self.player1_mask(), self.player2_mask(), n as u128);
            lemma_disjoint_set(self.player2_mask(), self.player1_mask(), n as u128);
            lemma_and_comm(self.player2_mask() | (1u128 << (n as u128)), self.player1_mask());
            lemma_shr81_set(self.player1_mask(), n as u128);
            lemma_shr81_set(self.player2_mask(), n as u128);
        }
        let lbit = 1u128 << ((27 * cr + 3 * cc + 20) as u128);
        match me {
            Player::Player1 => BitBoard {
                player1: self.player1 | (1u128 << (n as u128)),
                player2: self.player2,
                last_move: Some(lbit),
                last_rc: Ghost((cr, cc)),
            },
            Player::Player2 => BitBoard {
                player1: self.player1,
                player2: self.player2 | (1u128 << (n as u128)),
                last_move: Some(lbit),
                last_rc: Ghost((cr, cc)),
            },
        }
    }

    /// The first player's mask.
    pub closed spec fn player1_mask(self) -> u128 {
        self.player1
    }

    /// The second player's mask.
    pub closed spec fn player2_mask(self) -> u128 {
        self.player2
    }

    /// The stored last-move bit, if any.
    pub closed spec fn last_bit(self) -> Option<u128> {
        self.last_move
    }

    /// The forced subboard the last-move bit stands for.
    pub closed spec fn last_rc_spec(self) -> (usize, usize) {
        self.last_rc@
    }

    /// The representation is well formed: the two masks are disjoint, only
    /// the 81 board bits are used, and the last-move bit, when present, is
    /// the corner bit of the forced subboard.
    pub open spec fn wf(self) -> bool {
        &&& self.player1_mask() & self.player2_mask() == 0
        &&& self.player1_mask() >> 81 == 0
        &&& self.player2_mask() >> 81 == 0
        &&& match self.last_bit() {
            None => true,
            Some(l) => {
                &&& self.last_rc_spec().0 < 3
                &&& self.last_rc_spec().1 < 3
                &&& l == (1u128 << (corner_pos(
                    self.last_rc_spec().0 as int,
                    self.last_rc_spec().1 as int,
                ) as u128))
            },
        }
    }

    /// The subboard the last move forces, if any.
    pub open spec fn last_forced(self) -> Option<(usize, usize)> {
        match self.last_bit() {
            None => None,
            Some(l) => Some(self.last_rc_spec()),
        }
    }

    /// The tile the masks encode in cell `(sr, sc, cr, cc)`.
    pub open spec fn tile_at(self, sr: int, sc: int, cr: int, cc: int) -> Tile {
        bm_tile(self@, sr, sc, cr, cc)
    }

    /// The straightforward board this packed board encodes: its cells, the
    /// turn the mark counts imply, and the forced subboard written into the
    /// last move's cell-coordinate slots.
    pub open spec fn to_model(self) -> BoardModel {
        bm_to_model(self@)
    }

    /// The empty packed board.
    pub fn new() -> (r: BitBoard)
        ensures
            r.wf(),
            r.player1_mask() == 0,
            r.player2_mask() == 0,
            r.last_forced() is None,
    {
        proof {
            assert(0u128 & 0u128 == 0u128) by (bit_vector);
            assert(0u128 >> 81u128 == 0u128) by (bit_vector);
        }
        BitBoard { player1: 0, player2: 0, last_move: None, last_rc: Ghost((0, 0)) }
    }

}

impl GameState for BitBoard {
    open spec fn inv(&self) -> bool {
        self.wf()
    }

    open spec fn next_model(m: BitModel) -> Seq<BitModel> {
        bm_next(m)
    }

    fn next_states(&self) -> (v: Vec<BitBoard>) {
        self.get_legal_boards()
    }

    fn dup(&self) -> (r: BitBoard) {
        *self
    }
}

/// How many subboards the mask `w` holds a complete line in.
pub open spec fn won_count(w: u128) -> int {
    (if sub_won(w, 0, 0) {
        1int
    } else {
        0int
    }) + (if sub_won(w, 0, 1) {
        1int
    } else {
        0int
    }) + (if sub_won(w, 0, 2) {
        1int
    } else {
        0int
    }) + (if sub_won(w, 1, 0) {
        1int
    } else {
        0int
    }) + (if sub_won(w, 1, 1) {
        1int
    } else {
        0int
    }) + (if sub_won(w, 1, 2) {
        1int
    } else {
        0int
    }) + (if sub_won(w, 2, 0) {
        1int
    } else {
        0int
    }) + (if sub_won(w, 2, 1) {
        1int
    } else {
        0int
    }) + (if sub_won(w, 2, 2) {
        1int
    } else {
        0int
    })
}

/// A heuristic for the packed board that counts won subboards: one point
/// per subboard the second player has won, minus one per subboard the
/// first player has won.
pub struct WinHeuristic {}

impl Heuristic<BitBoard> for WinHeuristic {
    open spec fn score_model(m: BitModel) -> int {
        won_count(m.p2) - won_count(m.p1)
    }

    fn score(game_state: &BitBoard) -> (r: i32) {
        let wins = game_state.all_wins();
        proof {
            assert(corner_pos(0, 0) == 20 && corner_pos(0, 1) == 23 && corner_pos(0, 2) == 26
                && corner_pos(1, 0) == 47 && corner_pos(1, 1) == 50 && corner_pos(1, 2) == 53
                && corner_pos(2, 0) == 74 && corner_pos(2, 1) == 77 && corner_pos(2, 2) == 80);
            assert forall|a: int, b: int| 0 <= a < 3 && 0 <= b < 3 implies (#[trigger] bit(
                wins.player1,
                corner_pos(a, b),
            ) <==> sub_won(game_state@.p1, a, b)) && (bit(wins.player2, corner_pos(a, b))
                <==> sub_won(game_state@.p2, a, b)) by {}
        }
        let p1 = count_corners(wins.player1);
        let p2 = count_corners(wins.player2);
        p2 - p1
    }
}

/// How many of the nine corner bits of `w` are set.
fn count_corners(w: u128) -> (r: i32)
    ensures
        r == (if bit(w, 20) {
            1int
        } else {
            0int
        }) + (if bit(w, 23) {
            1int
        } else {
            0int
        }) + (if bit(w, 26) {
            1int
        } else {
            0int
        }) + (if bit(w, 47) {
            1int
        } else {
            0int
        }) + (if bit(w, 50) {
            1int
        } else {
            0int
        }) + (if bit(w, 53) {
            1int
        } else {
            0int
        }) + (if bit(w, 74) {
            1int
        } else {
            0int
        }) + (if bit(w, 77) {
            1int
        } else {
            0int
        }) + (if bit(w, 80) {
            1int
        } else {
            0int
        }),
        0 <= r <= 9,
{
    let mut c: i32 = 0;
    if (w >> 20u128) & 1 == 1 {
        c = c + 1;
    }
    if (w >> 23u128) & 1 == 1 {
        c = c + 1;
    }
    if (w >> 26u128) & 1 == 1 {
        c = c + 1;
    }
    if (w >> 47u128) & 1 == 1 {
        c = c + 1;
    }
    if (w >> 50u128) & 1 == 1 {
        c = c + 1;
    }
    if (w >> 53u128) & 1 == 1 {
        c = c + 1;
    }
    if (w >> 74u128) & 1 == 1 {
        c = c + 1;
    }
    if (w >> 77u128) & 1 == 1 {
        c = c + 1;
    }
    if (w >> 80u128) & 1 == 1 {
        c = c + 1;
    }
    c
}

} // verus!
