//! The two decoders keep one and the same invariant under two encodings: an
//! explicit signed bit counter beside a byte-sized range, or a wide interval
//! word whose leading zeros imply the counter. This module states the
//! correspondence and proves that the two checked read steps move in
//! lockstep: corresponding states read the same bit and correspond again.

use vstd::prelude::*;

verus! {

use crate::bool_reader;
use crate::vp8_arithmetic_decoder;
use crate::bitmath::{spec_bigsplit, spec_split, norm_shift, lemma_bc_scaled, lemma_norm_shift};
use vstd::arithmetic::power2::{pow2, lemma_pow2_adds, lemma_pow2_pos, lemma2_to64};

/// A reader with the explicit counter and a decoder with the implicit one
/// correspond: same stream, same position, same accumulator, and the wide
/// interval is exactly the byte-range placed at the counter's bit position
/// (stated with both sides lifted by a byte so that a negative counter needs
/// no fractional interval).
pub open spec fn states_correspond(
    mb: bool_reader::ReaderModel,
    ma: vp8_arithmetic_decoder::DecoderModel,
) -> bool {
    &&& ma.chunks == mb.chunks
    &&& ma.final_bytes == mb.final_bytes
    &&& ma.final_bytes_remaining == mb.final_bytes_remaining
    &&& (ma.state.chunk_index == mb.state.chunk_index || (ma.state.chunk_index >= ma.chunks.len()
        && mb.state.chunk_index >= mb.chunks.len()))
    &&& ma.state.value == mb.state.value
    &&& ma.state.xrange * pow2(8) == mb.state.range * pow2((mb.state.bit_count + 8) as nat)
}

/// The refill conditions of the two encodings are the same condition: the
/// counter is negative exactly when the wide interval has slid below a byte.
pub proof fn lemma_refill_conditions_agree(
    mb: bool_reader::ReaderModel,
    ma: vp8_arithmetic_decoder::DecoderModel,
)
    requires
        bool_reader::model_wf(mb),
        states_correspond(mb, ma),
    ensures
        (mb.state.bit_count < 0) <==> (ma.state.xrange < 128),
{
    let bc8 = (mb.state.bit_count + 8) as nat;
    lemma_pow2_pos(bc8);
    assert(pow2(8) == 256) by {
        lemma2_to64();
    }
    if mb.state.bit_count < 0 {
        assert(pow2(bc8) <= 128) by {
            if bc8 < 7 {
                vstd::arithmetic::power2::lemma_pow2_strictly_increases(bc8, 7);
            }
            lemma2_to64();
        }
        assert(mb.state.range * pow2(bc8) <= 255 * 128) by (nonlinear_arith)
            requires
                mb.state.range <= 255 && pow2(bc8) <= 128,
        ;
    } else {
        assert(pow2(8) <= pow2(bc8)) by {
            if 8 < bc8 {
                vstd::arithmetic::power2::lemma_pow2_strictly_increases(8, bc8);
            }
        }
        assert(mb.state.range * pow2(bc8) >= 128 * 256) by (nonlinear_arith)
            requires
                mb.state.range >= 128 && pow2(bc8) >= 256,
        ;
    }
}

/// After any refill the counter is non-negative and the interval is the
/// range at the counter's position, exactly; the decisions then agree: same
/// split, same comparison, same bit, and the results correspond again.
proof fn lemma_decode_agrees(
    mb: bool_reader::ReaderModel,
    ma: vp8_arithmetic_decoder::DecoderModel,
    prob: int,
)
    requires
        bool_reader::model_wf(mb),
        states_correspond(mb, ma),
        mb.state.bit_count >= 0,
        0 <= prob <= 255,
    ensures
        ({
            let (sb, bitb) = bool_reader::decode_step(mb.state, prob);
            let (sa, bita) = vp8_arithmetic_decoder::decode_step(ma.state, prob);
            bitb == bita && states_correspond(
                bool_reader::ReaderModel { state: sb, ..mb },
                vp8_arithmetic_decoder::DecoderModel { state: sa, ..ma },
            )
        }),
{
    let bc = mb.state.bit_count as nat;
    let range = mb.state.range;
    lemma_pow2_pos(bc);
    lemma_pow2_adds(bc, 8);
    assert(pow2(8) == 256) by {
        lemma2_to64();
    }
    // The interval word is exactly range * 2^bc.
    assert(ma.state.xrange == range * pow2(bc)) by (nonlinear_arith)
        requires
            ma.state.xrange * 256 == range * (pow2(bc) * 256),
            256 < 0x10000,
    ;
    assert(128 * pow2(bc) <= range * pow2(bc) && range * pow2(bc) < 256 * pow2(bc))
        by (nonlinear_arith)
        requires
            128 <= range < 256 && 0 < pow2(bc),
    ;
    assert(256 * pow2(bc) == pow2(8 + bc)) by {
        lemma_pow2_adds(8, bc);
        lemma2_to64();
    }
    lemma_bc_scaled(range as int, bc);
    // Same split, positioned at the same place.
    let split = spec_split(range, prob);
    assert(spec_bigsplit(ma.state.xrange, prob) == split * pow2(bc));
    crate::bitmath::lemma_split_bounds(range, prob);
    let bigsplit = split * pow2(bc);
    // Same decision, and the two updates agree for both outcomes.
    let range2 = if mb.state.value >= bigsplit {
        range - split
    } else {
        split
    };
    assert(1 <= range2 <= 255);
    let sh = norm_shift(range2);
    lemma_norm_shift(range2);
    // range - split at position bc is what subtracting the positioned split
    // leaves of the interval word.
    assert((range - split) * pow2(bc) == range * pow2(bc) - split * pow2(bc)) by (nonlinear_arith);
    // Renormalizing the range while lowering the counter leaves the interval
    // word untouched: range2 * 2^sh at position bc - sh is range2 at bc.
    assert((range2 * pow2(sh as nat)) * pow2((mb.state.bit_count - sh + 8) as nat) == range2 * (
    pow2(bc) * 256)) by {
        assert(sh <= mb.state.bit_count + 8);
        lemma_pow2_adds(sh as nat, (mb.state.bit_count - sh + 8) as nat);
        assert(pow2(sh as nat) * pow2((mb.state.bit_count - sh + 8) as nat) == pow2(bc + 8));
        lemma_pow2_adds(bc, 8);
        assert((range2 * pow2(sh as nat)) * pow2((mb.state.bit_count - sh + 8) as nat) == range2 * (
        pow2(sh as nat) * pow2((mb.state.bit_count - sh + 8) as nat))) by (nonlinear_arith);
    }
    assert(range2 * pow2(bc) * 256 == range2 * (pow2(bc) * 256)) by (nonlinear_arith);
}

/// The two encodings of the decoder invariant are equivalent: corresponding
/// states take one whole checked read to the same bit and to corresponding
/// states, whether the read decodes, refills, uses the phantom byte, or
/// fails past the end.
pub proof fn lemma_encodings_agree(
    mb: bool_reader::ReaderModel,
    ma: vp8_arithmetic_decoder::DecoderModel,
    prob: int,
)
    requires
        bool_reader::model_wf(mb),
        vp8_arithmetic_decoder::model_wf(ma),
        states_correspond(mb, ma),
        0 <= prob <= 255,
    ensures
        bool_reader::read_bit_step(mb, prob).1 == vp8_arithmetic_decoder::read_bit_step(
            ma,
            prob,
        ).1,
        states_correspond(
            bool_reader::read_bit_step(mb, prob).0,
            vp8_arithmetic_decoder::read_bit_step(ma, prob).0,
        ),
{
    lemma_refill_conditions_agree(mb, ma);
    assert(pow2(8) == 256) by {
        lemma2_to64();
    }
    let bc8 = (mb.state.bit_count + 8) as nat;
    lemma_pow2_pos(bc8);
    if mb.state.bit_count < 0 {
        let m1b = bool_reader::refilled(mb);
        let m1a = vp8_arithmetic_decoder::refilled(ma);
        if mb.state.chunk_index < mb.chunks.len() {
            // A whole chunk on both sides: both counters rise by 32 bits.
            assert(ma.state.chunk_index == mb.state.chunk_index);
            assert(ma.state.xrange < 128);
            assert(ma.state.xrange % 0x1_0000_0000 == ma.state.xrange);
            assert(pow2(32) == 0x1_0000_0000) by {
                lemma2_to64();
                vstd::arithmetic::power2::lemma2_to64_rest();
            }
            lemma_pow2_adds(bc8, 32);
            assert(m1a.state.xrange * pow2(8) == m1b.state.range * pow2(
                (m1b.state.bit_count + 8) as nat,
            )) by (nonlinear_arith)
                requires
                    m1a.state.xrange == ma.state.xrange * pow2(32),
                    ma.state.xrange * pow2(8) == mb.state.range * pow2(bc8),
                    m1b.state.range == mb.state.range,
                    m1a.state.xrange * pow2(8) == (ma.state.xrange * pow2(32)) * pow2(8),
                    pow2((m1b.state.bit_count + 8) as nat) == pow2(bc8) * pow2(32),
            ;
            assert(states_correspond(m1b, m1a));
            lemma_decode_agrees(
                bool_reader::ReaderModel { state: m1b.state, ..mb },
                vp8_arithmetic_decoder::DecoderModel { state: m1a.state, ..ma },
                prob,
            );
            assert(bool_reader::read_bit_step(mb, prob).0 =~~= bool_reader::ReaderModel {
                state: bool_reader::decode_step(m1b.state, prob).0,
                ..m1b
            });
            assert(vp8_arithmetic_decoder::read_bit_step(ma, prob).0
                =~~= vp8_arithmetic_decoder::DecoderModel {
                state: vp8_arithmetic_decoder::decode_step(m1a.state, prob).0,
                ..m1a
            });
        } else if mb.final_bytes_remaining >= 0 {
            // A tail byte (real or the one phantom): both counters rise by 8.
            assert(ma.state.chunk_index >= ma.chunks.len());
            assert(ma.state.xrange < 128);
            assert(ma.state.xrange % 0x100_0000_0000_0000 == ma.state.xrange);
            lemma_pow2_adds(bc8, 8);
            assert(m1a.state.xrange * pow2(8) == m1b.state.range * pow2(
                (m1b.state.bit_count + 8) as nat,
            )) by (nonlinear_arith)
                requires
                    m1a.state.xrange == ma.state.xrange * 256,
                    ma.state.xrange * pow2(8) == mb.state.range * pow2(bc8),
                    m1b.state.range == mb.state.range,
                    pow2(8) == 256,
                    pow2((m1b.state.bit_count + 8) as nat) == pow2(bc8) * pow2(8),
            ;
            assert(states_correspond(m1b, m1a));
            lemma_decode_agrees(
                bool_reader::ReaderModel { state: m1b.state, ..mb },
                vp8_arithmetic_decoder::DecoderModel { state: m1a.state, ..ma },
                prob,
            );
            assert(bool_reader::read_bit_step(mb, prob).0 =~~= bool_reader::ReaderModel {
                state: bool_reader::decode_step(m1b.state, prob).0,
                ..m1b
            });
            assert(vp8_arithmetic_decoder::read_bit_step(ma, prob).0
                =~~= vp8_arithmetic_decoder::DecoderModel {
                state: vp8_arithmetic_decoder::decode_step(m1a.state, prob).0,
                ..m1a
            });
        } else {
            // Past the leniency on both sides: both fail without moving.
            assert(ma.state.chunk_index >= ma.chunks.len());
            assert(states_correspond(m1b, m1a));
        }
    } else {
        lemma_decode_agrees(mb, ma, prob);
    }
}

/// The decoder with the implicit counter primes itself at construction, so a
/// freshly initialized one corresponds to a freshly initialized reader that
/// has done its first refill.
pub proof fn lemma_inits_correspond(words: Seq<[u8; 4]>, len: int)
    requires
        0 <= len,
        words.len() <= 0x1000_0000,
        words.len() == 0 ==> len == 0,
        len == 4 * words.len() || (4 * words.len() - 4 <= len && len < 4 * words.len()),
    ensures
        states_correspond(
            bool_reader::refilled(bool_reader::init_model(words, len)),
            vp8_arithmetic_decoder::init_model(words, len),
        ),
{
    let mb0 = bool_reader::init_model(words, len);
    let mb = bool_reader::refilled(mb0);
    let ma = vp8_arithmetic_decoder::init_model(words, len);
    assert(pow2(8) == 256 && pow2(24) == 0x100_0000 && pow2(32) == 0x1_0000_0000) by {
        lemma2_to64();
        vstd::arithmetic::power2::lemma2_to64_rest();
    }
    assert(ma.chunks == mb.chunks);
    if mb0.chunks.len() > 0 {
        assert(mb.state.value == mb0.chunks[0]);
        assert(0xFF00_0000 * pow2(8) == 255 * pow2(32));
    } else {
        assert(0xFF * pow2(8) == 255 * pow2(8));
        if mb0.final_bytes_remaining > 0 {
            assert(ma.final_bytes =~= mb.final_bytes);
        }
    }
}

} // verus!
