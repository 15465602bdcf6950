//! Core of a VP8 entropy decoder: two boolean arithmetic decoders (one with an
//! explicit bit counter, one that derives the counter from leading zeros of a
//! wide interval), a probability-tree walker on top of them, and the fixed-point
//! inverse transforms that consume decoded coefficient blocks.

use vstd::prelude::*;

pub mod bitmath;
pub mod bool_reader;
pub mod encoding;
pub mod transform;
pub mod vp8;
pub mod vp8_arithmetic_decoder;

verus! {

use crate::bitmath::{
    spec_bc,
    spec_bigsplit,
    spec_range_of,
    spec_split,
    lemma_pow2_quotient,
    lemma_range_of_bounds,
    lemma_split_bounds,
    lemma_spec_bc_bounds,
    lemma_u64_clz_bc,
};
use vstd::arithmetic::power2::{pow2, lemma_pow2_adds, lemma2_to64, lemma2_to64_rest};
use vstd::arithmetic::div_mod::{lemma_fundamental_div_mod, lemma_fundamental_div_mod_converse};
use vstd::bits::{lemma_u64_shl_is_mul, lemma_u64_shr_is_div};

/// The decoder core can fail in exactly two ways: the compressed partition is
/// too short to even be framed, or a read ran past the tolerated end of the
/// bit stream.
#[derive(Clone, Copy, Debug, PartialEq, Eq, Structural)]
pub enum DecodingError {
    /// The buffer handed to `init` cannot supply a single framing unit.
    NotEnoughInitData,
    /// A read crossed the end-of-stream sentinel after the one-byte leniency
    /// was exhausted.
    BitStreamError,
}

/// The positioned split of a wide interval value, computed the plain way:
/// extract the top byte as the range, take the split, shift it back up.
pub fn foo(xrange: u64, probability: u8) -> (r: u64)
    requires
        128 <= xrange < 0x100_0000_0000,
    ensures
        r == spec_bigsplit(xrange as int, probability as int),
{
    proof {
        lemma_u64_clz_bc(xrange);
        lemma_spec_bc_bounds(xrange as int);
        lemma_range_of_bounds(xrange as int);
    }
    let probability = probability as u64;
    let bsr = xrange.leading_zeros() as i32 - 32;
    let bit_count: u64 = (24 - bsr) as u64;
    let range = xrange >> bit_count;
    proof {
        lemma_u64_shr_is_div(xrange, bit_count);
        lemma_split_bounds(spec_range_of(xrange as int), probability as int);
    }
    let scaled = (range - 1) * probability;
    proof {
        lemma_u64_shr_is_div(scaled, 8);
        assert(pow2(8) == 256) by {
            lemma2_to64();
        }
    }
    let split = 1 + (scaled >> 8);
    proof {
        assert(0 < pow2(bit_count as nat) <= pow2(32) < 0x2_0000_0000) by {
            if bit_count < 32 {
                vstd::arithmetic::power2::lemma_pow2_strictly_increases(bit_count as nat, 32);
            }
            vstd::arithmetic::power2::lemma_pow2_pos(bit_count as nat);
            lemma2_to64();
            lemma2_to64_rest();
        }
        assert(split * pow2(bit_count as nat) < 0x1_0000_0000_0000) by (nonlinear_arith)
            requires
                0 <= split < 256 && 0 < pow2(bit_count as nat) < 0x2_0000_0000,
        ;
        lemma_u64_shl_is_mul(split, bit_count);
    }
    let bigsplit = split << bit_count;

    bigsplit
}

/// The positioned split of a wide interval value, computed with masked
/// arithmetic on the shifted interval instead of extracting the range first.
/// Provably the same function as `foo`.
pub fn bar(xrange: u64, probability: u8) -> (r: u64)
    requires
        128 <= xrange < 0x100_0000_0000,
    ensures
        r == spec_bigsplit(xrange as int, probability as int),
{
    proof {
        lemma_u64_clz_bc(xrange);
        lemma_spec_bc_bounds(xrange as int);
        lemma_range_of_bounds(xrange as int);
    }
    let ghost bc = spec_bc(xrange as int) as nat;
    let ghost rg = spec_range_of(xrange as int);
    let probability = u64::from(probability);
    let s = xrange.leading_zeros() - 24;
    proof {
        assert(s == 32 - bc);
        lemma_pow2_adds((32 - bc) as nat, bc);
        vstd::arithmetic::power2::lemma_pow2_pos(bc);
        vstd::arithmetic::power2::lemma_pow2_pos((32 - bc) as nat);
        lemma2_to64();
        lemma2_to64_rest();
        assert(pow2(32) == 0x1_0000_0000);
        lemma_fundamental_div_mod(xrange as int, pow2(bc) as int);
    }
    let ghost rem = xrange as int % (pow2(bc) as int);
    let ghost p_bc: int = pow2(bc) as int;
    let ghost p_lo: int = pow2((32 - bc) as nat) as int;
    proof {
        assert(((32 - bc) as nat) + bc == 32);
        assert(pow2(((32 - bc) as nat) + bc) == pow2((32 - bc) as nat) * pow2(bc)) by {
            lemma_pow2_adds((32 - bc) as nat, bc);
        }
        assert(pow2(((32 - bc) as nat) + bc) == pow2(32));
        assert(pow2((32 - bc) as nat) * pow2(bc) == 0x1_0000_0000);
        assert(p_bc == pow2(bc) && p_lo == pow2((32 - bc) as nat));
        vstd::arithmetic::mul::lemma_mul_is_commutative(p_bc, p_lo);
        assert(p_bc * p_lo == 0x1_0000_0000);
        assert(xrange as int == p_bc * rg + rem);
        assert(0 <= rem < p_bc);
        assert(xrange as int * p_lo == rg * 0x1_0000_0000 + rem * p_lo) by (nonlinear_arith)
            requires
                xrange as int == p_bc * rg + rem && p_bc * p_lo == 0x1_0000_0000,
        ;
        assert(0 <= rem * p_lo < 0x1_0000_0000) by (nonlinear_arith)
            requires
                0 <= rem < p_bc && 0 < p_lo && p_bc * p_lo == 0x1_0000_0000,
        ;
        lemma_u64_shl_is_mul(xrange, s as u64);
    }
    let mut r = xrange << (s as u64);
    proof {
        assert(r == xrange as int * p_lo);
        assert(r / 0x1_0000_0000 == rg) by {
            lemma_fundamental_div_mod_converse(r as int, 0x1_0000_0000, rg, rem * p_lo);
        }
        assert(r < 0x100_0000_0000) by {
            assert(rg * 0x1_0000_0000 < 0x100_0000_0000) by (nonlinear_arith)
                requires
                    rg <= 255,
            ;
        }
        assert(r & 0x0000_00FF_0000_0000 == (r / 0x1_0000_0000) * 0x1_0000_0000) by (bit_vector)
            requires
                r < 0x100_0000_0000u64,
        ;
    }
    r &= 0x0000_00FF_0000_0000;
    proof {
        assert(r == rg * 0x1_0000_0000);
        assert(0x1_0000_0000 * (rg - 1) == rg * 0x1_0000_0000 - 0x1_0000_0000) by (nonlinear_arith);
    }
    r -= 0x0000_0001_0000_0000;
    proof {
        assert(r == (rg - 1) * 0x1_0000_0000) by (nonlinear_arith)
            requires
                r == rg * 0x1_0000_0000 - 0x1_0000_0000,
        ;
        assert((rg - 1) * 0x1_0000_0000 * probability == ((rg - 1) * probability) * 0x1_0000_0000)
            by (nonlinear_arith);
        assert(0 <= (rg - 1) * probability < 0x1_0000) by (nonlinear_arith)
            requires
                0 <= rg - 1 < 256 && 0 <= probability < 256,
        ;
        assert(r * probability < 0x1_0000_0000_0000_0000) by (nonlinear_arith)
            requires
                r == (rg - 1) * 0x1_0000_0000 && 0 <= rg - 1 < 256 && 0 <= probability < 256,
        ;
    }
    r *= probability;
    let ghost q = (rg - 1) * (probability as int);
    proof {
        assert(r == q * 0x1_0000_0000);
        assert(r < 0x1_0000_0000_0000) by (nonlinear_arith)
            requires
                r == q * 0x1_0000_0000 && q < 0x1_0000,
        ;
        assert(r / 0x100_0000_0000 == q / 256) by {
            lemma_fundamental_div_mod(q as int, 256);
            let qq = q / 256;
            let qr = q % 256;
            assert(q * 0x1_0000_0000 == qq * 0x100_0000_0000 + qr * 0x1_0000_0000)
                by (nonlinear_arith)
                requires
                    q == 256 * qq + qr,
            ;
            lemma_fundamental_div_mod_converse(
                q * 0x1_0000_0000,
                0x100_0000_0000,
                qq,
                qr * 0x1_0000_0000,
            );
        }
        assert(r & 0x0000_FF00_0000_0000 == (r / 0x100_0000_0000) * 0x100_0000_0000)
            by (bit_vector)
            requires
                r < 0x1_0000_0000_0000u64,
        ;
    }
    r &= 0x0000_FF00_0000_0000;
    proof {
        assert(r == (q / 256) * 0x100_0000_0000);
        assert((q / 256 + 1) * 0x100_0000_0000 == (q / 256) * 0x100_0000_0000 + 0x100_0000_0000)
            by (nonlinear_arith);
        assert(0 <= q / 256 < 256);
    }
    r += 0x0000_0100_0000_0000;
    proof {
        let sp = spec_split(rg, probability as int);
        assert(r == sp * 0x100_0000_0000) by (nonlinear_arith)
            requires
                r == (q / 256) * 0x100_0000_0000 + 0x100_0000_0000 && sp == q / 256 + 1,
        ;
        assert(pow2(40) == 0x100_0000_0000);
        assert(r as int / (pow2((s + 8) as nat) as int) == sp * pow2(bc)) by {
            lemma_pow2_quotient(sp, 40, (s + 8) as nat);
            assert((40 - (s + 8)) as nat == bc);
        }
        lemma_u64_shr_is_div(r, (s + 8) as u64);
    }
    r >>= (s as u64) + 8;

    r
}

} // verus!
