//! Bit-level groundwork shared by the two decoder variants: powers of two,
//! leading-zero characterizations, truncating shifts, the normalization shift
//! of a byte-sized range, the implicit bit position of a wide interval, and
//! the split computation at the heart of every binary decision.

use vstd::prelude::*;

verus! {

use vstd::arithmetic::power2::{
    pow2,
    lemma_pow2_adds,
    lemma_pow2_pos,
    lemma_pow2_strictly_increases,
    lemma2_to64,
    lemma2_to64_rest,
};
use vstd::arithmetic::div_mod::{
    lemma_div_is_ordered,
    lemma_div_multiples_vanish,
    lemma_fundamental_div_mod,
    lemma_fundamental_div_mod_converse,
    lemma_mod_multiples_basic,
};
use vstd::arithmetic::mul::{lemma_mul_inequality, lemma_mul_is_commutative};
use vstd::bits::{lemma_u64_shl_is_mul, lemma_u64_shr_is_div, lemma_u32_shr_is_div};
use vstd::std_specs::bits::{
    u32_leading_zeros,
    u64_leading_zeros,
    axiom_u32_leading_zeros,
    axiom_u64_leading_zeros,
};

/// The value of one 4-byte chunk read as a big-endian 32-bit word.
pub open spec fn be_word(c: Seq<u8>) -> int {
    c[0] * 0x100_0000 + c[1] * 0x1_0000 + c[2] * 0x100 + c[3]
}

/// The split point of a binary decision: how much of the current interval
/// `range` belongs to the "false" branch with probability `prob` (0-255).
pub open spec fn spec_split(range: int, prob: int) -> int {
    1 + ((range - 1) * prob) / 256
}

/// How many doublings a byte-sized range needs to land in [128, 256).
pub open spec fn norm_shift(r: int) -> int
    decreases 256 - r,
    when 1 <= r < 256
{
    if r >= 128 || r < 1 {
        0
    } else {
        1 + norm_shift(2 * r)
    }
}

/// The implicit bit position of a wide interval value: the distance from its
/// top byte to its lowest bit, i.e. floor(log2 x) - 7 for x >= 128.
pub open spec fn spec_bc(x: int) -> int
    decreases x,
    when x >= 128
{
    if x < 256 {
        0
    } else {
        1 + spec_bc(x / 2)
    }
}

/// The top byte of a wide interval value: the arithmetic range in [128, 256).
pub open spec fn spec_range_of(x: int) -> int {
    x / (pow2(spec_bc(x) as nat) as int)
}

/// The split of a wide interval value, positioned at its implicit bit
/// position: what a binary decision compares the accumulator against.
pub open spec fn spec_bigsplit(x: int, prob: int) -> int {
    spec_split(spec_range_of(x), prob) * pow2(spec_bc(x) as nat)
}

/// The top byte of a wide interval value of at least one byte fills its
/// eight bits.
pub proof fn lemma_range_of_bounds(x: int)
    requires
        128 <= x,
    ensures
        128 <= spec_range_of(x) <= 255,
{
    lemma_spec_bc_bounds(x);
    let b = spec_bc(x) as nat;
    lemma_pow2_pos(b);
    assert(pow2(7 + b) == 128 * pow2(b)) by {
        lemma_pow2_adds(7, b);
        lemma2_to64();
    }
    assert(pow2(8 + b) == 256 * pow2(b)) by {
        lemma_pow2_adds(8, b);
        lemma2_to64();
    }
    lemma_div_is_ordered(128 * (pow2(b) as int), x, pow2(b) as int);
    assert((128 * (pow2(b) as int)) / (pow2(b) as int) == 128) by {
        vstd::arithmetic::div_mod::lemma_div_by_multiple(128, pow2(b) as int);
    }
    assert(x / (pow2(b) as int) < 256) by {
        assert(x < (pow2(b) as int) * 256) by {
            lemma_mul_is_commutative(256, pow2(b) as int);
        }
        vstd::arithmetic::div_mod::lemma_multiply_divide_lt(x, pow2(b) as int, 256);
    }
}

/// Dividing a product q * 2^a by the smaller power 2^b leaves q * 2^(a-b).
pub proof fn lemma_pow2_quotient(q: int, a: nat, b: nat)
    requires
        0 <= q,
        b <= a,
    ensures
        (q * pow2(a)) / (pow2(b) as int) == q * pow2((a - b) as nat),
{
    lemma_pow2_adds((a - b) as nat, b);
    lemma_pow2_pos(b);
    lemma_pow2_pos((a - b) as nat);
    assert(q * pow2(a) == (q * pow2((a - b) as nat)) * pow2(b)) by (nonlinear_arith)
        requires
            pow2(a) == pow2((a - b) as nat) * pow2(b),
    ;
    assert(0 <= q * pow2((a - b) as nat)) by (nonlinear_arith)
        requires
            0 <= q && 0 < pow2((a - b) as nat),
    ;
    vstd::arithmetic::div_mod::lemma_div_by_multiple(q * pow2((a - b) as nat), pow2(b) as int);
}

/// Reads one chunk as a big-endian word. The same computation as
/// `u32::from_be_bytes`, written out so that its value is proved.
pub fn word_from_be_bytes(chunk: [u8; 4]) -> (r: u32)
    ensures
        r == be_word(chunk@),
        r < 0x1_0000_0000,
{
    (chunk[0] as u32) * 0x100_0000 + (chunk[1] as u32) * 0x1_0000 + (chunk[2] as u32) * 0x100
        + (chunk[3] as u32)
}

/// The split always leaves room on both sides: 1 <= split <= range - 1.
pub proof fn lemma_split_bounds(range: int, prob: int)
    requires
        128 <= range <= 255,
        0 <= prob <= 255,
    ensures
        1 <= spec_split(range, prob) <= range - 1,
{
    let a = range - 1;
    assert(a * prob <= a * 255) by (nonlinear_arith)
        requires
            0 <= prob <= 255 && 0 <= a,
    ;
    assert(0 <= a * prob) by (nonlinear_arith)
        requires
            0 <= prob && 0 <= a,
    ;
    assert(a * 255 == 256 * (a - 1) + (256 - a)) by (nonlinear_arith);
    assert((256 * (a - 1) + (256 - a)) / 256 == a - 1) by {
        lemma_fundamental_div_mod_converse(256 * (a - 1) + (256 - a), 256, a - 1, 256 - a);
    }
    lemma_div_is_ordered(a * prob, a * 255, 256);
    lemma_div_is_ordered(0, a * prob, 256);
}

/// A nonzero 64-bit value lies between the powers of two that its
/// leading-zero count names.
pub proof fn lemma_u64_clz_bounds(x: u64)
    requires
        x != 0,
    ensures
        0 <= u64_leading_zeros(x) <= 63,
        pow2((63 - u64_leading_zeros(x)) as nat) <= x < pow2((64 - u64_leading_zeros(x)) as nat),
{
    axiom_u64_leading_zeros(x);
    let lz = u64_leading_zeros(x);
    let hi = (63 - lz) as u64;
    assert((x >> hi) & 1u64 != 0u64);
    lemma_u64_shr_is_div(x, hi);
    lemma_pow2_pos((63 - lz) as nat);
    lemma_pow2_pos((64 - lz) as nat);
    assert((x >> hi) >= 1) by {
        assert(forall|y: u64| y & 1u64 != 0u64 ==> y >= 1) by (bit_vector);
    }
    assert(x as nat / pow2((63 - lz) as nat) >= 1);
    assert(x >= pow2((63 - lz) as nat)) by {
        lemma_fundamental_div_mod(x as int, pow2((63 - lz) as nat) as int);
        lemma_mul_inequality(1, x as int / pow2((63 - lz) as nat) as int, pow2(
            (63 - lz) as nat,
        ) as int);
        lemma_mul_is_commutative(x as int / pow2((63 - lz) as nat) as int, pow2(
            (63 - lz) as nat,
        ) as int);
    }
    assert(x < pow2((64 - lz) as nat)) by {
        if lz == 0 {
            assert(pow2(64) == 0x1_0000_0000_0000_0000) by {
                lemma2_to64_rest();
            }
        } else {
            assert(x >> ((64 - lz) as u64) == 0);
            lemma_u64_shr_is_div(x, (64 - lz) as u64);
            if x >= pow2((64 - lz) as nat) {
                lemma_div_is_ordered(pow2((64 - lz) as nat) as int, x as int, pow2(
                    (64 - lz) as nat,
                ) as int);
                lemma_div_multiples_vanish(1, pow2((64 - lz) as nat) as int);
            }
        }
    }
}

/// A nonzero 32-bit value lies between the powers of two that its
/// leading-zero count names.
pub proof fn lemma_u32_clz_bounds(x: u32)
    requires
        x != 0,
    ensures
        0 <= u32_leading_zeros(x) <= 31,
        pow2((31 - u32_leading_zeros(x)) as nat) <= x < pow2((32 - u32_leading_zeros(x)) as nat),
{
    axiom_u32_leading_zeros(x);
    let lz = u32_leading_zeros(x) as int;
    let hi = (31 - lz) as u32;
    assert((x >> hi) & 1u32 != 0u32);
    lemma_u32_shr_is_div(x, hi);
    lemma_pow2_pos((31 - lz) as nat);
    lemma_pow2_pos((32 - lz) as nat);
    assert((x >> hi) >= 1) by {
        assert(forall|y: u32| y & 1u32 != 0u32 ==> y >= 1) by (bit_vector);
    }
    assert(x >= pow2((31 - lz) as nat)) by {
        lemma_fundamental_div_mod(x as int, pow2((31 - lz) as nat) as int);
        lemma_mul_inequality(1, x as int / pow2((31 - lz) as nat) as int, pow2(
            (31 - lz) as nat,
        ) as int);
        lemma_mul_is_commutative(x as int / pow2((31 - lz) as nat) as int, pow2(
            (31 - lz) as nat,
        ) as int);
    }
    assert(x < pow2((32 - lz) as nat)) by {
        if lz == 0 {
            assert(pow2(32) == 0x1_0000_0000) by {
                lemma2_to64();
            }
        } else {
            assert(x >> ((32 - lz) as u32) == 0);
            lemma_u32_shr_is_div(x, (32 - lz) as u32);
            if x >= pow2((32 - lz) as nat) {
                lemma_div_is_ordered(pow2((32 - lz) as nat) as int, x as int, pow2(
                    (32 - lz) as nat,
                ) as int);
                lemma_div_multiples_vanish(1, pow2((32 - lz) as nat) as int);
            }
        }
    }
}

/// Two dyadic intervals can hold the same value only if they are the same.
pub proof fn lemma_pow2_interval_unique(a: nat, b: nat, x: int)
    requires
        pow2(a) <= x < pow2(a + 1),
        pow2(b) <= x < pow2(b + 1),
    ensures
        a == b,
{
    if a < b {
        lemma_pow2_strictly_increases(a + 1, b + 1);
        if a + 1 < b {
            lemma_pow2_strictly_increases(a + 1, b);
        }
        assert(pow2(a + 1) <= pow2(b));
    }
    if b < a {
        if b + 1 < a {
            lemma_pow2_strictly_increases(b + 1, a);
        }
        assert(pow2(b + 1) <= pow2(a));
    }
}

/// The normalization shift of a byte-sized range is at most 7 doublings and
/// lands the range in [128, 255].
pub proof fn lemma_norm_shift(r: int)
    requires
        1 <= r <= 255,
    ensures
        0 <= norm_shift(r) <= 7,
        128 <= r * pow2(norm_shift(r) as nat) <= 255,
    decreases 256 - r,
{
    if r >= 128 {
        assert(norm_shift(r) == 0);
        assert(pow2(0) == 1) by {
            lemma2_to64();
        }
        assert(r * pow2(norm_shift(r) as nat) == r * 1);
        assert(128 <= r * pow2(norm_shift(r) as nat) <= 255);
    } else {
        lemma_norm_shift(2 * r);
        let s = norm_shift(2 * r);
        assert(norm_shift(r) == 1 + s);
        assert(pow2((1 + s) as nat) == 2 * pow2(s as nat)) by {
            lemma_pow2_adds(1, s as nat);
            lemma2_to64();
        }
        assert(r * pow2((1 + s) as nat) == (2 * r) * pow2(s as nat)) by (nonlinear_arith)
            requires
                pow2((1 + s) as nat) == 2 * pow2(s as nat),
        ;
        if 1 + s > 7 {
            assert(pow2(8) == 256) by {
                lemma2_to64();
            }
            if 1 + s > 8 {
                lemma_pow2_strictly_increases(8, (1 + s) as nat);
            }
            assert(r * pow2((1 + s) as nat) >= pow2((1 + s) as nat)) by (nonlinear_arith)
                requires
                    r >= 1 && pow2((1 + s) as nat) > 0,
            ;
            assert(false);
        }
    }
}

/// For a byte-sized range the hardware leading-zero count and the recursive
/// normalization shift agree: clz(r) == 24 + norm_shift(r).
pub proof fn lemma_u32_clz_norm_shift(r: u32)
    requires
        1 <= r <= 255,
    ensures
        u32_leading_zeros(r) == 24 + norm_shift(r as int),
{
    lemma_u32_clz_bounds(r);
    lemma_norm_shift(r as int);
    let lz = u32_leading_zeros(r) as int;
    let s = norm_shift(r as int);
    let p = r * pow2(s as nat);
    assert(pow2(7) == 128 && pow2(8) == 256) by {
        lemma2_to64();
    }
    // From 128 <= r * 2^s < 256: pow2(7 - s) <= r < pow2(8 - s).
    lemma_pow2_pos(s as nat);
    assert(pow2((7 - s) as nat) * pow2(s as nat) == 128) by {
        lemma_pow2_adds((7 - s) as nat, s as nat);
    }
    assert(pow2((8 - s) as nat) * pow2(s as nat) == 256) by {
        lemma_pow2_adds((8 - s) as nat, s as nat);
    }
    assert(r >= pow2((7 - s) as nat)) by (nonlinear_arith)
        requires
            r * pow2(s as nat) >= 128,
            pow2((7 - s) as nat) * pow2(s as nat) == 128,
            pow2(s as nat) > 0,
    ;
    assert(r < pow2((8 - s) as nat)) by (nonlinear_arith)
        requires
            r * pow2(s as nat) < 256,
            pow2((8 - s) as nat) * pow2(s as nat) == 256,
            pow2(s as nat) > 0,
    ;
    assert((8 - s) as nat == (7 - s) as nat + 1);
    lemma_pow2_interval_unique((7 - s) as nat, (31 - lz) as nat, r as int);
}

/// The implicit bit position lies between 0 and the width allows, and brackets
/// the value between powers of two.
pub proof fn lemma_spec_bc_bounds(x: int)
    requires
        128 <= x,
    ensures
        0 <= spec_bc(x),
        pow2((7 + spec_bc(x)) as nat) <= x < pow2((8 + spec_bc(x)) as nat),
    decreases x,
{
    if x < 256 {
        assert(pow2(7) == 128 && pow2(8) == 256) by {
            lemma2_to64();
        }
    } else {
        lemma_spec_bc_bounds(x / 2);
        let b = spec_bc(x / 2);
        lemma_pow2_adds(1, (7 + b) as nat);
        lemma_pow2_adds(1, (8 + b) as nat);
        assert(pow2(1) == 2) by {
            lemma2_to64();
        }
        assert(pow2((7 + b) as nat) <= x / 2 < pow2((8 + b) as nat));
        assert(x < 2 * (x / 2) + 2);
        assert(2 * (x / 2) <= x);
    }
}

/// For a wide interval value of at least one byte, the hardware leading-zero
/// count determines the implicit bit position: bc(x) == 56 - clz(x).
pub proof fn lemma_u64_clz_bc(x: u64)
    requires
        128 <= x,
    ensures
        u64_leading_zeros(x) == 56 - spec_bc(x as int),
        0 <= spec_bc(x as int) <= 32 || x >= 0x100_0000_0000,
{
    lemma_u64_clz_bounds(x);
    lemma_spec_bc_bounds(x as int);
    let lz = u64_leading_zeros(x);
    let b = spec_bc(x as int);
    assert((64 - lz) as nat == (63 - lz) as nat + 1);
    assert((8 + b) as nat == (7 + b) as nat + 1);
    lemma_pow2_interval_unique((63 - lz) as nat, (7 + b) as nat, x as int);
    if b > 32 && x < 0x100_0000_0000 {
        assert(pow2(40) == 0x100_0000_0000) by {
            lemma2_to64_rest();
        }
        lemma_pow2_strictly_increases(40, (7 + b) as nat);
    }
}

/// A value below one byte's worth has more than 56 leading zeros, and the
/// other way round.
pub proof fn lemma_u64_clz_small(x: u64)
    ensures
        x < 128 <==> u64_leading_zeros(x) > 56,
{
    if x == 0 {
        axiom_u64_leading_zeros(x);
    } else {
        lemma_u64_clz_bounds(x);
        let lz = u64_leading_zeros(x);
        assert(pow2(7) == 128) by {
            lemma2_to64();
        }
        if lz > 56 {
            if ((64 - lz) as nat) < 7 {
                lemma_pow2_strictly_increases((64 - lz) as nat, 7);
            }
        } else {
            if ((63 - lz) as nat) > 7 {
                lemma_pow2_strictly_increases(7, (63 - lz) as nat);
            }
        }
    }
}

/// A product k * 2^e with a byte-sized factor k is aligned: its implicit bit
/// position is at most e, so 2^bc divides it; and when k fills the top byte,
/// the position is exactly e and dividing recovers k.
pub proof fn lemma_bc_scaled(k: int, e: nat)
    requires
        1 <= k <= 255,
        128 <= k * pow2(e),
    ensures
        spec_bc(k * pow2(e)) <= e,
        (k * pow2(e)) % (pow2(spec_bc(k * pow2(e)) as nat) as int) == 0,
        128 <= k ==> spec_bc(k * pow2(e)) == e && (k * pow2(e)) / pow2(e) as int == k,
{
    let x = k * pow2(e);
    lemma_spec_bc_bounds(x);
    let b = spec_bc(x);
    lemma_pow2_pos(e);
    assert(x < 256 * pow2(e)) by (nonlinear_arith)
        requires
            k <= 255 && pow2(e) > 0 && x == k * pow2(e),
    ;
    assert(256 * pow2(e) == pow2(8 + e)) by {
        lemma_pow2_adds(8, e);
        lemma2_to64();
    }
    assert(pow2((7 + b) as nat) < pow2(8 + e));
    if 7 + b >= 8 + e {
        if 7 + b > 8 + e {
            lemma_pow2_strictly_increases(8 + e, (7 + b) as nat);
        }
        assert(false);
    }
    assert(b <= e);
    assert(x % (pow2(b as nat) as int) == 0) by {
        lemma_pow2_adds(b as nat, (e - b) as nat);
        assert(x == (k * pow2((e - b) as nat)) * pow2(b as nat)) by (nonlinear_arith)
            requires
                pow2(e) == pow2(b as nat) * pow2((e - b) as nat) && x == k * pow2(e),
        ;
        lemma_mod_multiples_basic(k * pow2((e - b) as nat), pow2(b as nat) as int);
    }
    if 128 <= k {
        assert(pow2(7 + e) <= x) by {
            lemma_pow2_adds(7, e);
            lemma2_to64();
            assert(128 * pow2(e) <= k * pow2(e)) by (nonlinear_arith)
                requires
                    128 <= k && pow2(e) > 0,
            ;
        }
        assert((8 + e) == (7 + e) + 1);
        assert((8 + b) as nat == (7 + b) as nat + 1);
        lemma_pow2_interval_unique(7 + e, (7 + b) as nat, x);
        lemma_div_multiples_vanish(k, pow2(e) as int);
        lemma_mul_is_commutative(k, pow2(e) as int);
    }
}

/// Shifting a byte left by one and adding a bit is modular doubling.
pub proof fn lemma_u8_shl1_add(v: u8, b: u8)
    requires
        b <= 1,
    ensures
        (v << 1u8) + b == (2 * v + b) % 256,
        (v << 1u8) <= 254,
{
    assert((v << 1u8) + b == (2 * v + b) % 256 && (v << 1u8) <= 254u8) by (bit_vector)
        requires
            b <= 1u8,
    ;
}

/// Truncating shift by 32 with a fresh chunk in the low bits, as arithmetic:
/// only the low 32 bits of the old value survive.
pub proof fn lemma_u64_shl32_or(x: u64, c: u64)
    requires
        c < 0x1_0000_0000,
    ensures
        ((x << 32u64) | c) == (x as int % 0x1_0000_0000) * 0x1_0000_0000 + c,
{
    assert(((x << 32u64) | c) == (x % 0x1_0000_0000u64) * 0x1_0000_0000 + c) by (bit_vector)
        requires
            c < 0x1_0000_0000u64,
    ;
}

/// Truncating shift by 8 with a fresh byte in the low bits, as arithmetic:
/// only the low 56 bits of the old value survive.
pub proof fn lemma_u64_shl8_or(x: u64, c: u64)
    requires
        c < 0x100,
    ensures
        ((x << 8u64) | c) == (x as int % 0x100_0000_0000_0000) * 0x100 + c,
{
    assert(((x << 8u64) | c) == (x % 0x100_0000_0000_0000u64) * 0x100 + c) by (bit_vector)
        requires
            c < 0x100u64,
    ;
}

} // verus!
