//! Fixed-point inverse transforms for 4x4 coefficient blocks: the DCT-like
//! inverse transform (`idct4x4`) and the inverse Walsh-Hadamard transform
//! (`iwht4x4`). Both are pure, in-place, two-pass butterflies; the DCT uses
//! 64-bit intermediates so that no product or sum can overflow.

use vstd::prelude::*;

verus! {

pub const CONST1: i64 = 20091;

pub const CONST2: i64 = 35468;

/// A coefficient of this magnitude is far above anything a conforming stream
/// can decode, yet small enough that every intermediate of both transforms
/// stays well inside its machine type.
pub const COEFF_LIMIT: i64 = 0x100_0000;

/// The block as a 4x4 matrix of unbounded integers.
pub open spec fn mat_of32(b: [[i32; 4]; 4]) -> Seq<Seq<int>> {
    Seq::new(4, |y: int| Seq::new(4, |x: int| b@[y]@[x] as int))
}

/// The 64-bit working copy as a 4x4 matrix of unbounded integers.
pub open spec fn mat_of64(b: [[i64; 4]; 4]) -> Seq<Seq<int>> {
    Seq::new(4, |y: int| Seq::new(4, |x: int| b@[y]@[x] as int))
}

/// Every cell of the block lies in [-bound, bound].
pub open spec fn in_bounds32(b: [[i32; 4]; 4], bound: int) -> bool {
    forall|y: int, x: int| 0 <= y < 4 && 0 <= x < 4 ==> -bound <= #[trigger] b@[y]@[x] <= bound
}

/// Every cell of the 64-bit working copy lies in [-bound, bound].
pub open spec fn in_bounds64(b: [[i64; 4]; 4], bound: int) -> bool {
    forall|y: int, x: int| 0 <= y < 4 && 0 <= x < 4 ==> -bound <= #[trigger] b@[y]@[x] <= bound
}

/// Fixed-point product with the first transform constant, plus the input:
/// v * (1 + 20091 / 2^16), rounded toward minus infinity.
pub open spec fn scaled1(v: int) -> int {
    v + (v * CONST1) / 65536
}

/// Fixed-point product with the second transform constant:
/// v * 35468 / 2^16, rounded toward minus infinity.
pub open spec fn scaled2(v: int) -> int {
    (v * CONST2) / 65536
}

/// One output cell of the column pass of the inverse DCT.
pub open spec fn butterfly_col_cell(m: Seq<Seq<int>>, y: int, x: int) -> int {
    let a1 = m[0][x] + m[2][x];
    let b1 = m[0][x] - m[2][x];
    let c1 = scaled2(m[1][x]) - scaled1(m[3][x]);
    let d1 = scaled1(m[1][x]) + scaled2(m[3][x]);
    if y == 0 {
        a1 + d1
    } else if y == 1 {
        b1 + c1
    } else if y == 2 {
        b1 - c1
    } else {
        a1 - d1
    }
}

/// One output cell of the row pass of the inverse DCT, applied to a matrix
/// that already went through the column pass.
pub open spec fn butterfly_row_cell(m: Seq<Seq<int>>, y: int, x: int) -> int {
    let a1 = m[y][0] + m[y][2];
    let b1 = m[y][0] - m[y][2];
    let c1 = scaled2(m[y][1]) - scaled1(m[y][3]);
    let d1 = scaled1(m[y][1]) + scaled2(m[y][3]);
    if x == 0 {
        a1 + d1
    } else if x == 1 {
        b1 + c1
    } else if x == 2 {
        b1 - c1
    } else {
        a1 - d1
    }
}

/// The row pass applied on top of the column pass, cell by cell.
pub open spec fn idct_stage2_cell(m: Seq<Seq<int>>, y: int, x: int) -> int {
    let a1 = butterfly_col_cell(m, y, 0) + butterfly_col_cell(m, y, 2);
    let b1 = butterfly_col_cell(m, y, 0) - butterfly_col_cell(m, y, 2);
    let c1 = scaled2(butterfly_col_cell(m, y, 1)) - scaled1(butterfly_col_cell(m, y, 3));
    let d1 = scaled1(butterfly_col_cell(m, y, 1)) + scaled2(butterfly_col_cell(m, y, 3));
    if x == 0 {
        a1 + d1
    } else if x == 1 {
        b1 + c1
    } else if x == 2 {
        b1 - c1
    } else {
        a1 - d1
    }
}

/// One cell of the whole inverse DCT: columns, then rows, then rounding by
/// (v + 4) >> 3.
pub open spec fn idct_cell(m: Seq<Seq<int>>, y: int, x: int) -> int {
    (idct_stage2_cell(m, y, x) + 4) / 8
}

/// One output cell of the column pass of the inverse Walsh-Hadamard transform.
pub open spec fn wht_col_cell(m: Seq<Seq<int>>, y: int, x: int) -> int {
    let a1 = m[0][x] + m[3][x];
    let b1 = m[1][x] + m[2][x];
    let c1 = m[1][x] - m[2][x];
    let d1 = m[0][x] - m[3][x];
    if y == 0 {
        a1 + b1
    } else if y == 1 {
        c1 + d1
    } else if y == 2 {
        a1 - b1
    } else {
        d1 - c1
    }
}

/// The row pass of the inverse Walsh-Hadamard transform applied on top of its
/// column pass, cell by cell, before rounding.
pub open spec fn iwht_stage2_cell(m: Seq<Seq<int>>, y: int, x: int) -> int {
    let a1 = wht_col_cell(m, y, 0) + wht_col_cell(m, y, 3);
    let b1 = wht_col_cell(m, y, 1) + wht_col_cell(m, y, 2);
    let c1 = wht_col_cell(m, y, 1) - wht_col_cell(m, y, 2);
    let d1 = wht_col_cell(m, y, 0) - wht_col_cell(m, y, 3);
    if x == 0 {
        a1 + b1
    } else if x == 1 {
        c1 + d1
    } else if x == 2 {
        a1 - b1
    } else {
        d1 - c1
    }
}

/// One cell of the whole inverse Walsh-Hadamard transform: columns, then
/// rows, then rounding by (v + 3) >> 3.
pub open spec fn iwht_cell(m: Seq<Seq<int>>, y: int, x: int) -> int {
    (iwht_stage2_cell(m, y, x) + 3) / 8
}

/// Both transforms carry the all-zero block to the all-zero block.
pub proof fn lemma_transforms_on_zero(m: Seq<Seq<int>>, y: int, x: int)
    requires
        0 <= y < 4,
        0 <= x < 4,
        forall|i: int, j: int| 0 <= i < 4 && 0 <= j < 4 ==> #[trigger] m[i][j] == 0,
    ensures
        idct_cell(m, y, x) == 0,
        iwht_cell(m, y, x) == 0,
{
    assert(butterfly_col_cell(m, y, 0) == 0 && butterfly_col_cell(m, y, 1) == 0
        && butterfly_col_cell(m, y, 2) == 0 && butterfly_col_cell(m, y, 3) == 0);
    assert(wht_col_cell(m, y, 0) == 0 && wht_col_cell(m, y, 1) == 0 && wht_col_cell(m, y, 2) == 0
        && wht_col_cell(m, y, 3) == 0);
    assert(idct_stage2_cell(m, y, x) == 0);
    assert(iwht_stage2_cell(m, y, x) == 0);
}

/// Arithmetic right shift by 16 of a 64-bit value, expressed as division
/// rounding toward minus infinity. Implemented by sliding the value into the
/// non-negative range, where machine division and mathematical division agree.
fn shift_down_16(v: i64) -> (r: i64)
    requires
        -0x1000_0000_0000 <= v <= 0x1000_0000_0000,
    ensures
        r == v as int / 65536,
{
    let shifted: i64 = v + 0x4000_0000_0000_0000;
    let q: i64 = shifted / 65536;
    proof {
        vstd::arithmetic::div_mod::lemma_hoist_over_denominator(v as int, 0x4000_0000_0000, 65536);
    }
    q - 0x4000_0000_0000
}

/// Arithmetic right shift by 3 of a 64-bit value, as division rounding toward
/// minus infinity.
fn shift_down_3(v: i64) -> (r: i64)
    requires
        -0x1000_0000_0000 <= v <= 0x1000_0000_0000,
    ensures
        r == v as int / 8,
{
    let shifted: i64 = v + 0x4000_0000_0000_0000;
    let q: i64 = shifted / 8;
    proof {
        vstd::arithmetic::div_mod::lemma_hoist_over_denominator(v as int, 0x0800_0000_0000_0000, 8);
    }
    q - 0x0800_0000_0000_0000
}

/// Arithmetic right shift by 3 of a 32-bit value, as division rounding toward
/// minus infinity.
fn shift_down_3_i32(v: i32) -> (r: i32)
    requires
        -0x2000_0000 <= v <= 0x2000_0000,
    ensures
        r == v as int / 8,
{
    let shifted: i32 = v + 0x4000_0000;
    let q: i32 = shifted / 8;
    proof {
        vstd::arithmetic::div_mod::lemma_hoist_over_denominator(v as int, 0x0800_0000, 8);
    }
    q - 0x0800_0000
}

/// Bounds for the two fixed-point scalings: scaling a bounded value keeps it
/// within twice the bound.
proof fn lemma_scaled_bounds(v: int, b: int)
    requires
        0 < b,
        -b <= v <= b,
    ensures
        -2 * b <= scaled1(v) <= 2 * b,
        -b <= scaled2(v) <= b,
        -b <= (v * CONST1) / 65536 <= b,
{
    assert(-(b * 65536) <= v * CONST1 <= b * 65536) by (nonlinear_arith)
        requires
            0 < b && -b <= v <= b,
    ;
    assert(-(b * 65536) <= v * CONST2 <= b * 65536) by (nonlinear_arith)
        requires
            0 < b && -b <= v <= b,
    ;
    vstd::arithmetic::div_mod::lemma_div_is_ordered(-(b * 65536), v * CONST1, 65536);
    vstd::arithmetic::div_mod::lemma_div_is_ordered(v * CONST1, b * 65536, 65536);
    vstd::arithmetic::div_mod::lemma_div_is_ordered(-(b * 65536), v * CONST2, 65536);
    vstd::arithmetic::div_mod::lemma_div_is_ordered(v * CONST2, b * 65536, 65536);
    assert((b * 65536) / 65536 == b) by {
        vstd::arithmetic::div_mod::lemma_div_multiples_vanish(b, 65536);
    }
    assert((-(b * 65536)) / 65536 == -b) by {
        vstd::arithmetic::div_mod::lemma_div_multiples_vanish(-b, 65536);
    }
}

/// Rounding a bounded value by (v + off) >> 3 keeps it within the bound.
proof fn lemma_round_bounds(v: int, off: int, b: int)
    requires
        8 <= b,
        0 <= off <= 4,
        -b <= v <= b,
    ensures
        -b <= (v + off) / 8 <= b,
{
    vstd::arithmetic::div_mod::lemma_div_is_ordered(-(b * 8), v + off, 8);
    vstd::arithmetic::div_mod::lemma_div_is_ordered(v + off, b * 8, 8);
    assert((b * 8) / 8 == b) by {
        vstd::arithmetic::div_mod::lemma_div_multiples_vanish(b, 8);
    }
    assert((-(b * 8)) / 8 == -b) by {
        vstd::arithmetic::div_mod::lemma_div_multiples_vanish(-b, 8);
    }
}

fn idct_impl_part1(block: &mut [[i64; 4]; 4])
    requires
        in_bounds64(*old(block), COEFF_LIMIT as int),
    ensures
        in_bounds64(*final(block), 5 * COEFF_LIMIT as int),
        forall|y: int, x: int|
            0 <= y < 4 && 0 <= x < 4 ==> final(block)@[y]@[x] == butterfly_col_cell(
                mat_of64(*old(block)),
                y,
                x,
            ),
{
    let ghost b0 = *block;
    let mut tees = [[0i64; 4]; 4];
    for x in 0..4usize
        invariant
            *block == b0,
            in_bounds64(b0, COEFF_LIMIT as int),
            forall|i: int| 0 <= i < x ==> #[trigger] tees@[i]@[0] == scaled2(b0@[1]@[i] as int),
            forall|i: int| 0 <= i < x ==> #[trigger] tees@[i]@[1] == scaled1(b0@[3]@[i] as int),
            forall|i: int| 0 <= i < x ==> #[trigger] tees@[i]@[2] == scaled1(b0@[1]@[i] as int),
            forall|i: int| 0 <= i < x ==> #[trigger] tees@[i]@[3] == scaled2(b0@[3]@[i] as int),
    {
        proof {
            lemma_scaled_bounds(b0@[1]@[x as int] as int, COEFF_LIMIT as int);
            lemma_scaled_bounds(b0@[3]@[x as int] as int, COEFF_LIMIT as int);
        }
        tees[x][0] = shift_down_16(block[1][x] * CONST2);
        tees[x][1] = block[3][x] + shift_down_16(block[3][x] * CONST1);
        tees[x][2] = block[1][x] + shift_down_16(block[1][x] * CONST1);
        tees[x][3] = shift_down_16(block[3][x] * CONST2);
    }

    let mut new_block = [[0i64; 4]; 4];
    for x in 0..4usize
        invariant
            *block == b0,
            in_bounds64(b0, COEFF_LIMIT as int),
            forall|i: int| 0 <= i < 4 ==> #[trigger] tees@[i]@[0] == scaled2(b0@[1]@[i] as int),
            forall|i: int| 0 <= i < 4 ==> #[trigger] tees@[i]@[1] == scaled1(b0@[3]@[i] as int),
            forall|i: int| 0 <= i < 4 ==> #[trigger] tees@[i]@[2] == scaled1(b0@[1]@[i] as int),
            forall|i: int| 0 <= i < 4 ==> #[trigger] tees@[i]@[3] == scaled2(b0@[3]@[i] as int),
            forall|i: int|
                0 <= i < x ==> #[trigger] new_block@[0]@[i] == butterfly_col_cell(
                    mat_of64(b0),
                    0,
                    i,
                ),
            forall|i: int|
                0 <= i < x ==> #[trigger] new_block@[1]@[i] == butterfly_col_cell(
                    mat_of64(b0),
                    1,
                    i,
                ),
            forall|i: int|
                0 <= i < x ==> #[trigger] new_block@[2]@[i] == butterfly_col_cell(
                    mat_of64(b0),
                    2,
                    i,
                ),
            forall|i: int|
                0 <= i < x ==> #[trigger] new_block@[3]@[i] == butterfly_col_cell(
                    mat_of64(b0),
                    3,
                    i,
                ),
            forall|k: int, i: int|
                0 <= k < 4 && 0 <= i < x ==> -5 * COEFF_LIMIT <= #[trigger] new_block@[k]@[i] <= 5
                    * COEFF_LIMIT,
    {
        proof {
            lemma_scaled_bounds(b0@[1]@[x as int] as int, COEFF_LIMIT as int);
            lemma_scaled_bounds(b0@[3]@[x as int] as int, COEFF_LIMIT as int);
            assert(mat_of64(b0)[0][x as int] == b0@[0]@[x as int]);
            assert(mat_of64(b0)[1][x as int] == b0@[1]@[x as int]);
            assert(mat_of64(b0)[2][x as int] == b0@[2]@[x as int]);
            assert(mat_of64(b0)[3][x as int] == b0@[3]@[x as int]);
        }
        let a1 = block[0][x] + block[2][x];
        let b1 = block[0][x] - block[2][x];
        let c1 = tees[x][0] - tees[x][1];
        let d1 = tees[x][2] + tees[x][3];

        new_block[0][x] = a1 + d1;
        new_block[1][x] = b1 + c1;
        new_block[3][x] = a1 - d1;
        new_block[2][x] = b1 - c1;
    }
    *block = new_block;
}

fn idct_impl_part2(block: &mut [[i64; 4]; 4])
    requires
        in_bounds64(*old(block), 5 * COEFF_LIMIT as int),
    ensures
        in_bounds64(*final(block), 25 * COEFF_LIMIT as int),
        forall|y: int, x: int|
            0 <= y < 4 && 0 <= x < 4 ==> final(block)@[y]@[x] == butterfly_row_cell(
                mat_of64(*old(block)),
                y,
                x,
            ),
{
    let ghost b0 = *block;
    let mut tees = [[0i64; 4]; 4];
    idct_impl_part2_a(&*block, &mut tees);
    idct_impl_part2_b(&*block, &mut tees);
    idct_impl_part2_f(block, &tees);
    proof {
        assert forall|y: int, x: int| 0 <= y < 4 && 0 <= x < 4 implies block@[y]@[x]
            == butterfly_row_cell(mat_of64(b0), y, x) && -25 * COEFF_LIMIT <= block@[y]@[x] <= 25
            * COEFF_LIMIT by {
            lemma_scaled_bounds(b0@[y]@[1] as int, 5 * COEFF_LIMIT as int);
            lemma_scaled_bounds(b0@[y]@[3] as int, 5 * COEFF_LIMIT as int);
            assert(mat_of64(b0)[y][0] == b0@[y]@[0]);
            assert(mat_of64(b0)[y][1] == b0@[y]@[1]);
            assert(mat_of64(b0)[y][2] == b0@[y]@[2]);
            assert(mat_of64(b0)[y][3] == b0@[y]@[3]);
        }
    }
}

fn idct_impl_part2_a(block: &[[i64; 4]; 4], tees: &mut [[i64; 4]; 4])
    requires
        in_bounds64(*block, 5 * COEFF_LIMIT as int),
    ensures
        in_bounds64(*final(tees), 5 * COEFF_LIMIT as int),
        forall|y: int|
            0 <= y < 4 ==> #[trigger] final(tees)@[y]@[0] == scaled2(block@[y]@[1] as int),
        forall|y: int|
            0 <= y < 4 ==> #[trigger] final(tees)@[y]@[1] == (block@[y]@[3] * CONST1) / 65536,
        forall|y: int|
            0 <= y < 4 ==> #[trigger] final(tees)@[y]@[2] == (block@[y]@[1] * CONST1) / 65536,
        forall|y: int|
            0 <= y < 4 ==> #[trigger] final(tees)@[y]@[3] == scaled2(block@[y]@[3] as int),
{
    let mut cees = [[0i64; 4]; 4];
    for y in 0..4usize
        invariant
            in_bounds64(*block, 5 * COEFF_LIMIT as int),
            forall|i: int| 0 <= i < y ==> #[trigger] cees@[i]@[0] == block@[i]@[1] * CONST2,
            forall|i: int| 0 <= i < y ==> #[trigger] cees@[i]@[1] == block@[i]@[3] * CONST1,
            forall|i: int| 0 <= i < y ==> #[trigger] cees@[i]@[2] == block@[i]@[1] * CONST1,
            forall|i: int| 0 <= i < y ==> #[trigger] cees@[i]@[3] == block@[i]@[3] * CONST2,
    {
        cees[y][0] = block[y][1] * CONST2;
        cees[y][1] = block[y][3] * CONST1;
        cees[y][2] = block[y][1] * CONST1;
        cees[y][3] = block[y][3] * CONST2;
    }

    for y in 0..4usize
        invariant
            in_bounds64(*block, 5 * COEFF_LIMIT as int),
            forall|i: int| 0 <= i < 4 ==> #[trigger] cees@[i]@[0] == block@[i]@[1] * CONST2,
            forall|i: int| 0 <= i < 4 ==> #[trigger] cees@[i]@[1] == block@[i]@[3] * CONST1,
            forall|i: int| 0 <= i < 4 ==> #[trigger] cees@[i]@[2] == block@[i]@[1] * CONST1,
            forall|i: int| 0 <= i < 4 ==> #[trigger] cees@[i]@[3] == block@[i]@[3] * CONST2,
            forall|i: int| 0 <= i < y ==> #[trigger] tees@[i]@[0] == scaled2(block@[i]@[1] as int),
            forall|i: int|
                0 <= i < y ==> #[trigger] tees@[i]@[1] == (block@[i]@[3] * CONST1) / 65536,
            forall|i: int|
                0 <= i < y ==> #[trigger] tees@[i]@[2] == (block@[i]@[1] * CONST1) / 65536,
            forall|i: int| 0 <= i < y ==> #[trigger] tees@[i]@[3] == scaled2(block@[i]@[3] as int),
            forall|i: int, k: int|
                0 <= i < y && 0 <= k < 4 ==> -5 * COEFF_LIMIT <= #[trigger] tees@[i]@[k] <= 5
                    * COEFF_LIMIT,
    {
        proof {
            lemma_scaled_bounds(block@[y as int]@[1] as int, 5 * COEFF_LIMIT as int);
            lemma_scaled_bounds(block@[y as int]@[3] as int, 5 * COEFF_LIMIT as int);
        }
        tees[y][0] = shift_down_16(cees[y][0]);
        tees[y][1] = shift_down_16(cees[y][1]);
        tees[y][2] = shift_down_16(cees[y][2]);
        tees[y][3] = shift_down_16(cees[y][3]);
    }
}

fn idct_impl_part2_b(block: &[[i64; 4]; 4], tees: &mut [[i64; 4]; 4])
    requires
        in_bounds64(*block, 5 * COEFF_LIMIT as int),
        in_bounds64(*old(tees), 5 * COEFF_LIMIT as int),
    ensures
        forall|y: int|
            0 <= y < 4 ==> -5 * COEFF_LIMIT <= #[trigger] final(tees)@[y]@[0] <= 5 * COEFF_LIMIT,
        forall|y: int|
            0 <= y < 4 ==> -10 * COEFF_LIMIT <= #[trigger] final(tees)@[y]@[1] <= 10 * COEFF_LIMIT,
        forall|y: int|
            0 <= y < 4 ==> -10 * COEFF_LIMIT <= #[trigger] final(tees)@[y]@[2] <= 10 * COEFF_LIMIT,
        forall|y: int|
            0 <= y < 4 ==> -5 * COEFF_LIMIT <= #[trigger] final(tees)@[y]@[3] <= 5 * COEFF_LIMIT,
        forall|y: int| 0 <= y < 4 ==> #[trigger] final(tees)@[y]@[0] == old(tees)@[y]@[0],
        forall|y: int|
            0 <= y < 4 ==> #[trigger] final(tees)@[y]@[1] == old(tees)@[y]@[1] + block@[y]@[3],
        forall|y: int|
            0 <= y < 4 ==> #[trigger] final(tees)@[y]@[2] == old(tees)@[y]@[2] + block@[y]@[1],
        forall|y: int| 0 <= y < 4 ==> #[trigger] final(tees)@[y]@[3] == old(tees)@[y]@[3],
{
    let ghost t0 = *tees;
    for y in 0..4usize
        invariant
            in_bounds64(*block, 5 * COEFF_LIMIT as int),
            in_bounds64(t0, 5 * COEFF_LIMIT as int),
            forall|i: int| y <= i < 4 ==> #[trigger] tees@[i]@[1] == t0@[i]@[1],
            forall|i: int| y <= i < 4 ==> #[trigger] tees@[i]@[2] == t0@[i]@[2],
            forall|i: int| 0 <= i < 4 ==> #[trigger] tees@[i]@[0] == t0@[i]@[0],
            forall|i: int| 0 <= i < 4 ==> #[trigger] tees@[i]@[3] == t0@[i]@[3],
            forall|i: int| 0 <= i < y ==> #[trigger] tees@[i]@[1] == t0@[i]@[1] + block@[i]@[3],
            forall|i: int| 0 <= i < y ==> #[trigger] tees@[i]@[2] == t0@[i]@[2] + block@[i]@[1],
    {
        tees[y][1] = tees[y][1] + block[y][3];
        tees[y][2] = tees[y][2] + block[y][1];
    }
}

fn idct_impl_part2_f(block: &mut [[i64; 4]; 4], tees: &[[i64; 4]; 4])
    requires
        in_bounds64(*old(block), 5 * COEFF_LIMIT as int),
        forall|y: int|
            0 <= y < 4 ==> -5 * COEFF_LIMIT <= #[trigger] tees@[y]@[0] <= 5 * COEFF_LIMIT,
        forall|y: int|
            0 <= y < 4 ==> -10 * COEFF_LIMIT <= #[trigger] tees@[y]@[1] <= 10 * COEFF_LIMIT,
        forall|y: int|
            0 <= y < 4 ==> -10 * COEFF_LIMIT <= #[trigger] tees@[y]@[2] <= 10 * COEFF_LIMIT,
        forall|y: int|
            0 <= y < 4 ==> -5 * COEFF_LIMIT <= #[trigger] tees@[y]@[3] <= 5 * COEFF_LIMIT,
    ensures
        in_bounds64(*final(block), 25 * COEFF_LIMIT as int),
        forall|y: int|
            0 <= y < 4 ==> #[trigger] final(block)@[y]@[0] == old(block)@[y]@[0] + old(block)@[y]@[2]
                + (tees@[y]@[2] + tees@[y]@[3]),
        forall|y: int|
            0 <= y < 4 ==> #[trigger] final(block)@[y]@[1] == old(block)@[y]@[0] - old(block)@[y]@[2]
                + (tees@[y]@[0] - tees@[y]@[1]),
        forall|y: int|
            0 <= y < 4 ==> #[trigger] final(block)@[y]@[2] == old(block)@[y]@[0] - old(block)@[y]@[2]
                - (tees@[y]@[0] - tees@[y]@[1]),
        forall|y: int|
            0 <= y < 4 ==> #[trigger] final(block)@[y]@[3] == old(block)@[y]@[0] + old(block)@[y]@[2]
                - (tees@[y]@[2] + tees@[y]@[3]),
{
    let ghost b0 = *block;
    let mut new_block = [[0i64; 4]; 4];
    for y in 0..4usize
        invariant
            *block == b0,
            in_bounds64(b0, 5 * COEFF_LIMIT as int),
            forall|i: int|
                0 <= i < 4 ==> -5 * COEFF_LIMIT <= #[trigger] tees@[i]@[0] <= 5 * COEFF_LIMIT,
            forall|i: int|
                0 <= i < 4 ==> -10 * COEFF_LIMIT <= #[trigger] tees@[i]@[1] <= 10 * COEFF_LIMIT,
            forall|i: int|
                0 <= i < 4 ==> -10 * COEFF_LIMIT <= #[trigger] tees@[i]@[2] <= 10 * COEFF_LIMIT,
            forall|i: int|
                0 <= i < 4 ==> -5 * COEFF_LIMIT <= #[trigger] tees@[i]@[3] <= 5 * COEFF_LIMIT,
            forall|i: int|
                0 <= i < y ==> #[trigger] new_block@[i]@[0] == b0@[i]@[0] + b0@[i]@[2] + (
                tees@[i]@[2] + tees@[i]@[3]),
            forall|i: int|
                0 <= i < y ==> #[trigger] new_block@[i]@[1] == b0@[i]@[0] - b0@[i]@[2] + (
                tees@[i]@[0] - tees@[i]@[1]),
            forall|i: int|
                0 <= i < y ==> #[trigger] new_block@[i]@[2] == b0@[i]@[0] - b0@[i]@[2] - (
                tees@[i]@[0] - tees@[i]@[1]),
            forall|i: int|
                0 <= i < y ==> #[trigger] new_block@[i]@[3] == b0@[i]@[0] + b0@[i]@[2] - (
                tees@[i]@[2] + tees@[i]@[3]),
            forall|i: int, k: int|
                0 <= i < 4 && 0 <= k < 4 ==> -25 * COEFF_LIMIT <= #[trigger] new_block@[i]@[k] <= 25
                    * COEFF_LIMIT,
    {
        let a1 = block[y][0] + block[y][2];
        let b1 = block[y][0] - block[y][2];
        let c1 = tees[y][0] - tees[y][1];
        let d1 = tees[y][2] + tees[y][3];

        new_block[y][0] = a1 + d1;
        new_block[y][3] = a1 - d1;
        new_block[y][1] = b1 + c1;
        new_block[y][2] = b1 - c1;
    }
    *block = new_block;
}

fn idct_impl_part3(block: &mut [[i64; 4]; 4])
    requires
        in_bounds64(*old(block), 25 * COEFF_LIMIT as int),
    ensures
        in_bounds64(*final(block), 25 * COEFF_LIMIT as int),
        forall|y: int, x: int|
            0 <= y < 4 && 0 <= x < 4 ==> final(block)@[y]@[x] == (old(block)@[y]@[x] + 4) / 8,
{
    let ghost b0 = *block;
    let mut new_block = [[0i64; 4]; 4];
    for y in 0..4usize
        invariant
            *block == b0,
            in_bounds64(b0, 25 * COEFF_LIMIT as int),
            forall|i: int, j: int|
                0 <= i < y && 0 <= j < 4 ==> #[trigger] new_block@[i]@[j] == (b0@[i]@[j] + 4) / 8
                    && -25 * COEFF_LIMIT <= new_block@[i]@[j] <= 25 * COEFF_LIMIT,
    {
        proof {
            lemma_round_bounds(b0@[y as int]@[0] as int, 4, 25 * COEFF_LIMIT as int);
            lemma_round_bounds(b0@[y as int]@[1] as int, 4, 25 * COEFF_LIMIT as int);
            lemma_round_bounds(b0@[y as int]@[2] as int, 4, 25 * COEFF_LIMIT as int);
            lemma_round_bounds(b0@[y as int]@[3] as int, 4, 25 * COEFF_LIMIT as int);
        }
        new_block[y][0] = shift_down_3(block[y][0] + 4);
        new_block[y][1] = shift_down_3(block[y][1] + 4);
        new_block[y][2] = shift_down_3(block[y][2] + 4);
        new_block[y][3] = shift_down_3(block[y][3] + 4);
    }
    *block = new_block;
}

/// The inverse DCT of one 4x4 coefficient block, in place. The result is
/// cell for cell the mathematical two-pass butterfly `idct_cell`.
pub fn idct4x4(block: &mut [[i32; 4]; 4])
    requires
        in_bounds32(*old(block), COEFF_LIMIT as int),
    ensures
        forall|y: int, x: int|
            0 <= y < 4 && 0 <= x < 4 ==> final(block)@[y]@[x] == idct_cell(
                mat_of32(*old(block)),
                y,
                x,
            ),
{
    let ghost b0 = *block;
    let ghost m0 = mat_of32(b0);
    let mut big_block = [[0i64; 4]; 4];
    for y in 0..4usize
        invariant
            *block == b0,
            forall|i: int, j: int|
                0 <= i < y && 0 <= j < 4 ==> #[trigger] big_block@[i]@[j] == b0@[i]@[j],
    {
        for x in 0..4usize
            invariant
                *block == b0,
                0 <= y < 4,
                forall|i: int, j: int|
                    0 <= i < y && 0 <= j < 4 ==> #[trigger] big_block@[i]@[j] == b0@[i]@[j],
                forall|j: int|
                    0 <= j < x ==> #[trigger] big_block@[y as int]@[j] == b0@[y as int]@[j],
        {
            big_block[y][x] = block[y][x] as i64;
        }
    }
    let ghost g0 = big_block;
    proof {
        assert forall|y: int, x: int| 0 <= y < 4 && 0 <= x < 4 implies #[trigger] g0@[y]@[x]
            == b0@[y]@[x] && -COEFF_LIMIT <= g0@[y]@[x] <= COEFF_LIMIT by {
            assert(big_block@[y]@[x] == b0@[y]@[x]);
        }
    }
    idct_impl_part1(&mut big_block);
    let ghost g1 = big_block;
    idct_impl_part2(&mut big_block);
    let ghost g2 = big_block;
    idct_impl_part3(&mut big_block);
    let ghost g3 = big_block;
    proof {
        assert forall|y: int, x: int| 0 <= y < 4 && 0 <= x < 4 implies g3@[y]@[x] == idct_cell(
            m0,
            y,
            x,
        ) by {
            assert forall|k: int| 0 <= k < 4 implies #[trigger] g1@[y]@[k] == butterfly_col_cell(
                m0,
                y,
                k,
            ) by {
                assert(mat_of64(g0)[0][k] == g0@[0]@[k] && m0[0][k] == b0@[0]@[k] && g0@[0]@[k]
                    == b0@[0]@[k]);
                assert(mat_of64(g0)[1][k] == g0@[1]@[k] && m0[1][k] == b0@[1]@[k] && g0@[1]@[k]
                    == b0@[1]@[k]);
                assert(mat_of64(g0)[2][k] == g0@[2]@[k] && m0[2][k] == b0@[2]@[k] && g0@[2]@[k]
                    == b0@[2]@[k]);
                assert(mat_of64(g0)[3][k] == g0@[3]@[k] && m0[3][k] == b0@[3]@[k] && g0@[3]@[k]
                    == b0@[3]@[k]);
                assert(g1@[y]@[k] == butterfly_col_cell(mat_of64(g0), y, k));
            }
            assert(mat_of64(g1)[y][0] == g1@[y]@[0]);
            assert(mat_of64(g1)[y][1] == g1@[y]@[1]);
            assert(mat_of64(g1)[y][2] == g1@[y]@[2]);
            assert(mat_of64(g1)[y][3] == g1@[y]@[3]);
            assert(butterfly_row_cell(mat_of64(g1), y, x) == idct_stage2_cell(m0, y, x));
            assert(g2@[y]@[x] == butterfly_row_cell(mat_of64(g1), y, x));
            assert(g3@[y]@[x] == (g2@[y]@[x] + 4) / 8);
        }
    }
    for y in 0..4usize
        invariant
            big_block == g3,
            forall|i: int, j: int|
                0 <= i < 4 && 0 <= j < 4 ==> #[trigger] g3@[i]@[j] == idct_cell(m0, i, j) && -25
                    * COEFF_LIMIT <= g3@[i]@[j] <= 25 * COEFF_LIMIT,
            forall|i: int, j: int|
                0 <= i < y && 0 <= j < 4 ==> #[trigger] block@[i]@[j] == idct_cell(m0, i, j),
    {
        for x in 0..4usize
            invariant
                big_block == g3,
                0 <= y < 4,
                forall|i: int, j: int|
                    0 <= i < 4 && 0 <= j < 4 ==> #[trigger] g3@[i]@[j] == idct_cell(m0, i, j) && -25
                        * COEFF_LIMIT <= g3@[i]@[j] <= 25 * COEFF_LIMIT,
                forall|i: int, j: int|
                    0 <= i < y && 0 <= j < 4 ==> #[trigger] block@[i]@[j] == idct_cell(m0, i, j),
                forall|j: int|
                    0 <= j < x ==> #[trigger] block@[y as int]@[j] == idct_cell(m0, y as int, j),
        {
            block[y][x] = big_block[y][x] as i32;
        }
    }
}

/// The inverse Walsh-Hadamard transform of one 4x4 block, in place. The
/// result is cell for cell the mathematical two-pass butterfly `iwht_cell`.
pub fn iwht4x4(block: &mut [[i32; 4]; 4])
    requires
        in_bounds32(*old(block), COEFF_LIMIT as int),
    ensures
        forall|y: int, x: int|
            0 <= y < 4 && 0 <= x < 4 ==> final(block)@[y]@[x] == iwht_cell(
                mat_of32(*old(block)),
                y,
                x,
            ),
{
    let ghost b0 = *block;
    let ghost m0 = mat_of32(b0);
    let mut new_block = [[0i32; 4]; 4];
    for x in 0..4usize
        invariant
            *block == b0,
            in_bounds32(b0, COEFF_LIMIT as int),
            forall|i: int|
                0 <= i < x ==> #[trigger] new_block@[0]@[i] == wht_col_cell(mat_of32(b0), 0, i),
            forall|i: int|
                0 <= i < x ==> #[trigger] new_block@[1]@[i] == wht_col_cell(mat_of32(b0), 1, i),
            forall|i: int|
                0 <= i < x ==> #[trigger] new_block@[2]@[i] == wht_col_cell(mat_of32(b0), 2, i),
            forall|i: int|
                0 <= i < x ==> #[trigger] new_block@[3]@[i] == wht_col_cell(mat_of32(b0), 3, i),
            forall|k: int, i: int|
                0 <= k < 4 && 0 <= i < x ==> -4 * COEFF_LIMIT <= #[trigger] new_block@[k]@[i] <= 4
                    * COEFF_LIMIT,
    {
        proof {
            assert(mat_of32(b0)[0][x as int] == b0@[0]@[x as int]);
            assert(mat_of32(b0)[1][x as int] == b0@[1]@[x as int]);
            assert(mat_of32(b0)[2][x as int] == b0@[2]@[x as int]);
            assert(mat_of32(b0)[3][x as int] == b0@[3]@[x as int]);
        }
        let a1 = block[0][x] + block[3][x];
        let b1 = block[1][x] + block[2][x];
        let c1 = block[1][x] - block[2][x];
        let d1 = block[0][x] - block[3][x];

        new_block[0][x] = a1 + b1;
        new_block[1][x] = c1 + d1;
        new_block[2][x] = a1 - b1;
        new_block[3][x] = d1 - c1;
    }
    *block = new_block;
    let ghost b1v = *block;
    for y in 0..4usize
        invariant
            *block == b1v,
            forall|k: int, i: int|
                0 <= k < 4 && 0 <= i < 4 ==> #[trigger] b1v@[k]@[i] == wht_col_cell(
                    mat_of32(b0),
                    k,
                    i,
                ) && -4 * COEFF_LIMIT <= b1v@[k]@[i] <= 4 * COEFF_LIMIT,
            m0 == mat_of32(b0),
            forall|i: int, j: int|
                0 <= i < y && 0 <= j < 4 ==> #[trigger] new_block@[i]@[j] == iwht_cell(m0, i, j),
    {
        proof {
            assert(b1v@[y as int]@[0] == wht_col_cell(m0, y as int, 0));
            assert(b1v@[y as int]@[1] == wht_col_cell(m0, y as int, 1));
            assert(b1v@[y as int]@[2] == wht_col_cell(m0, y as int, 2));
            assert(b1v@[y as int]@[3] == wht_col_cell(m0, y as int, 3));
        }
        let a1 = block[y][0] + block[y][3];
        let b1 = block[y][1] + block[y][2];
        let c1 = block[y][1] - block[y][2];
        let d1 = block[y][0] - block[y][3];

        let a2 = a1 + b1;
        let b2 = c1 + d1;
        let c2 = a1 - b1;
        let d2 = d1 - c1;

        new_block[y][0] = shift_down_3_i32(a2 + 3);
        new_block[y][1] = shift_down_3_i32(b2 + 3);
        new_block[y][2] = shift_down_3_i32(c2 + 3);
        new_block[y][3] = shift_down_3_i32(d2 + 3);
    }
    *block = new_block;
}

} // verus!
