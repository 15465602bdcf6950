//! The boolean decoder with an implicit bit counter: instead of a separate
//! counter, the interval lives in a wide word `xrange` whose leading zeros
//! encode how many loaded bits remain. The interval is never renormalized;
//! its top byte simply slides down until a refill shifts it back up. Reads go
//! through a speculative fast path that assumes unlimited input and falls
//! back to the fully checked cold path at the end of the stream.

use vstd::prelude::*;

verus! {

use crate::DecodingError;
use crate::bitmath::{
    be_word,
    spec_bc,
    spec_bigsplit,
    spec_range_of,
    spec_split,
    word_from_be_bytes,
    lemma_bc_scaled,
    lemma_range_of_bounds,
    lemma_spec_bc_bounds,
    lemma_split_bounds,
    lemma_u64_clz_bc,
    lemma_u64_clz_small,
    lemma_u64_shl32_or,
    lemma_u64_shl8_or,
    lemma_u8_shl1_add,
};
use crate::vp8::{TreeNode, spec_value_from_branch, tree_well_formed};
use vstd::arithmetic::power2::{pow2, lemma_pow2_strictly_increases, lemma2_to64, lemma2_to64_rest};
use vstd::arithmetic::div_mod::{lemma_fundamental_div_mod, lemma_fundamental_div_mod_converse};
use vstd::arithmetic::mul::lemma_mul_is_commutative;
use vstd::bits::{lemma_u64_shl_is_mul, lemma_u64_shr_is_div, lemma_u32_shr_is_div};

/// The sentinel that marks a decoder as having run past the tolerated end of
/// its stream: distinct from every live tail-byte count.
pub const FINAL_BYTES_REMAINING_EOF: i8 = -0xE;

/// The mutable decoding position: where the next chunk comes from, the wide
/// accumulator, and the wide interval word.
#[derive(Clone, Copy)]
pub struct State {
    chunk_index: usize,
    value: u64,
    xrange: u64,
}

/// The mathematical image of a `State`.
#[verifier::ext_equal]
pub ghost struct AState {
    pub chunk_index: int,
    pub value: int,
    pub xrange: int,
}

/// The mathematical image of a whole decoder.
#[verifier::ext_equal]
pub ghost struct DecoderModel {
    pub chunks: Seq<int>,
    pub state: AState,
    pub final_bytes: Seq<int>,
    pub final_bytes_remaining: int,
}

impl View for State {
    type V = AState;

    closed spec fn view(&self) -> AState {
        AState {
            chunk_index: self.chunk_index as int,
            value: self.value as int,
            xrange: self.xrange as int,
        }
    }
}

/// The decoder has crossed the end-of-stream sentinel; every further checked
/// read must fail.
pub open spec fn past_eof(m: DecoderModel) -> bool {
    m.final_bytes_remaining == FINAL_BYTES_REMAINING_EOF as int
}

/// The wide interval is aligned: below its top byte only zeros follow. Every
/// interval this decoder produces has this shape, which is what lets the
/// equiprobable fast path halve the interval without extracting the range.
pub open spec fn xrange_aligned(x: int) -> bool {
    x >= 128 ==> x % (pow2(spec_bc(x) as nat) as int) == 0
}

/// The interval invariant of a live (initialized, not yet failed) decoder.
pub open spec fn xrange_live(x: int) -> bool {
    1 <= x < 0x100_0000_0000 && xrange_aligned(x)
}

/// Every value of the model that a fresh or initialized decoder can reach.
pub open spec fn model_wf(m: DecoderModel) -> bool {
    &&& 0 <= m.state.chunk_index <= m.chunks.len() + 1
    &&& m.chunks.len() <= 0x1000_0000
    &&& 0 <= m.state.value < 0x1_0000_0000_0000_0000
    &&& forall|i: int| 0 <= i < m.chunks.len() ==> 0 <= #[trigger] m.chunks[i] < 0x1_0000_0000
    &&& m.final_bytes.len() == 3
    &&& forall|i: int| 0 <= i < 3 ==> 0 <= #[trigger] m.final_bytes[i] < 0x100
    &&& (past_eof(m) || -1 <= m.final_bytes_remaining <= 3)
    &&& (m.state.xrange == 0 ==> past_eof(m))
    &&& (m.state.xrange != 0 ==> xrange_live(m.state.xrange))
    &&& (past_eof(m) ==> m.state.xrange < 128 && m.state.chunk_index >= m.chunks.len())
}

/// One refill from the tail bytes.
pub open spec fn tail_refilled(m: DecoderModel) -> DecoderModel {
    if m.final_bytes_remaining > 0 {
        DecoderModel {
            state: AState {
                value: (m.state.value % 0x100_0000_0000_0000) * 0x100 + m.final_bytes[0],
                xrange: (m.state.xrange % 0x100_0000_0000_0000) * 0x100,
                ..m.state
            },
            final_bytes: seq![m.final_bytes[1], m.final_bytes[2], m.final_bytes[0]],
            final_bytes_remaining: m.final_bytes_remaining - 1,
            ..m
        }
    } else if m.final_bytes_remaining == 0 {
        DecoderModel {
            state: AState {
                value: (m.state.value % 0x100_0000_0000_0000) * 0x100,
                xrange: (m.state.xrange % 0x100_0000_0000_0000) * 0x100,
                ..m.state
            },
            final_bytes_remaining: -1,
            ..m
        }
    } else {
        DecoderModel { final_bytes_remaining: FINAL_BYTES_REMAINING_EOF as int, ..m }
    }
}

/// One refill attempt of the checked path.
pub open spec fn refilled(m: DecoderModel) -> DecoderModel {
    if m.state.chunk_index < m.chunks.len() {
        DecoderModel {
            state: AState {
                chunk_index: m.state.chunk_index + 1,
                value: (m.state.value % 0x1_0000_0000) * 0x1_0000_0000
                    + m.chunks[m.state.chunk_index],
                xrange: (m.state.xrange % 0x1_0000_0000) * 0x1_0000_0000,
            },
            ..m
        }
    } else {
        tail_refilled(m)
    }
}

/// The arithmetic decision itself: position the split under the interval's
/// top byte, compare, subtract. No renormalization follows; the interval
/// keeps its implicit bit position.
pub open spec fn decode_step(s: AState, prob: int) -> (AState, bool) {
    let bigsplit = spec_bigsplit(s.xrange, prob);
    if s.value >= bigsplit {
        (AState { value: s.value - bigsplit, xrange: s.xrange - bigsplit, ..s }, true)
    } else {
        (AState { xrange: bigsplit, ..s }, false)
    }
}

/// One whole checked read: refill if the interval slid below a byte, fail if
/// that crossed the sentinel, otherwise decode one bit.
pub open spec fn read_bit_step(m: DecoderModel, prob: int) -> (DecoderModel, bool) {
    let m1 = if m.state.xrange < 128 {
        refilled(m)
    } else {
        m
    };
    if past_eof(m1) {
        (m1, false)
    } else {
        let (s2, bit) = decode_step(m1.state, prob);
        (DecoderModel { state: s2, ..m1 }, bit)
    }
}

/// One speculative read against the chunk sequence alone: a missing chunk is
/// replaced by zero, but the position still advances.
pub open spec fn fast_read_bit_step(chunks: Seq<int>, s: AState, prob: int) -> (AState, bool) {
    let s1 = if s.xrange < 128 {
        AState {
            chunk_index: s.chunk_index + 1,
            value: (s.value % 0x1_0000_0000) * 0x1_0000_0000 + (
            if s.chunk_index < chunks.len() {
                chunks[s.chunk_index]
            } else {
                0
            }),
            xrange: (s.xrange % 0x1_0000_0000) * 0x1_0000_0000,
        }
    } else {
        s
    };
    decode_step(s1, prob)
}

/// A sequence of checked reads of equiprobable bits, accumulated most
/// significant bit first into a byte.
pub open spec fn read_literal_step(m: DecoderModel, n: int, acc: int) -> (DecoderModel, int)
    decreases n,
{
    if n <= 0 {
        (m, acc)
    } else {
        let (m1, b) = read_bit_step(m, 128);
        read_literal_step(m1, n - 1, (2 * acc + if b {
            1int
        } else {
            0int
        }) % 256)
    }
}

/// One flag bit; zero if it is clear, with no further bits consumed; else an
/// `n`-bit magnitude and a sign bit.
pub open spec fn read_optional_signed_value_step(m: DecoderModel, n: int) -> (DecoderModel, int) {
    let (m1, flag) = read_bit_step(m, 128);
    if !flag {
        (m1, 0)
    } else {
        let (m2, mag) = read_literal_step(m1, n, 0);
        let (m3, sign) = read_bit_step(m2, 128);
        (m3, if sign {
            -mag
        } else {
            mag
        })
    }
}

/// A checked walk of a probability tree from `index`.
pub open spec fn read_tree_step(m: DecoderModel, tree: Seq<TreeNode>, index: int) -> (
    DecoderModel,
    int,
)
    decreases tree.len() - index,
    when tree_well_formed(tree) && 0 <= index < tree.len()
{
    let node = tree[index];
    let (m1, b) = read_bit_step(m, node.prob as int);
    let t = if b {
        node.right as int
    } else {
        node.left as int
    };
    if t < tree.len() {
        read_tree_step(m1, tree, t)
    } else {
        (m1, spec_value_from_branch(t))
    }
}

/// A sequence of speculative reads of equiprobable bits.
pub open spec fn fast_read_literal_step(chunks: Seq<int>, s: AState, n: int, acc: int) -> (
    AState,
    int,
)
    decreases n,
{
    if n <= 0 {
        (s, acc)
    } else {
        let (s1, b) = fast_read_bit_step(chunks, s, 128);
        fast_read_literal_step(chunks, s1, n - 1, (2 * acc + if b {
            1int
        } else {
            0int
        }) % 256)
    }
}

/// A speculative optional signed value.
pub open spec fn fast_read_optional_signed_value_step(chunks: Seq<int>, s: AState, n: int) -> (
    AState,
    int,
) {
    let (s1, flag) = fast_read_bit_step(chunks, s, 128);
    if !flag {
        (s1, 0)
    } else {
        let (s2, mag) = fast_read_literal_step(chunks, s1, n, 0);
        let (s3, sign) = fast_read_bit_step(chunks, s2, 128);
        (s3, if sign {
            -mag
        } else {
            mag
        })
    }
}

/// A speculative walk of a probability tree from `index`.
pub open spec fn fast_read_tree_step(chunks: Seq<int>, s: AState, tree: Seq<TreeNode>, index: int) -> (
    AState,
    int,
)
    decreases tree.len() - index,
    when tree_well_formed(tree) && 0 <= index < tree.len()
{
    let node = tree[index];
    let (s1, b) = fast_read_bit_step(chunks, s, node.prob as int);
    let t = if b {
        node.right as int
    } else {
        node.left as int
    };
    if t < tree.len() {
        fast_read_tree_step(chunks, s1, tree, t)
    } else {
        (s1, spec_value_from_branch(t))
    }
}

/// The state invariant that the speculative path maintains on its own.
pub open spec fn fast_state_ok(s: AState) -> bool {
    &&& xrange_live(s.xrange)
    &&& 0 <= s.value < 0x1_0000_0000_0000_0000
    &&& 0 <= s.chunk_index
}

/// What the speculative path relies on of the chunk words.
pub open spec fn chunks_ok(chunks: Seq<int>) -> bool {
    &&& chunks.len() <= 0x1000_0000
    &&& forall|i: int| 0 <= i < chunks.len() ==> 0 <= #[trigger] chunks[i] < 0x1_0000_0000
}

/// An aligned interval is exactly its range times its implicit position.
pub proof fn lemma_xrange_decompose(x: int)
    requires
        128 <= x,
        xrange_aligned(x),
    ensures
        x == spec_range_of(x) * pow2(spec_bc(x) as nat),
{
    lemma_spec_bc_bounds(x);
    vstd::arithmetic::power2::lemma_pow2_pos(spec_bc(x) as nat);
    lemma_fundamental_div_mod(x, pow2(spec_bc(x) as nat) as int);
    lemma_mul_is_commutative(pow2(spec_bc(x) as nat) as int, spec_range_of(x));
}

/// The positioned split leaves a live, aligned interval on both sides of
/// the decision.
pub proof fn lemma_bigsplit_props(x: int, prob: int)
    requires
        xrange_live(x),
        128 <= x,
        0 <= prob <= 255,
    ensures
        1 <= spec_bigsplit(x, prob),
        spec_bigsplit(x, prob) <= x - pow2(spec_bc(x) as nat),
        xrange_live(spec_bigsplit(x, prob)),
        xrange_live(x - spec_bigsplit(x, prob)),
{
    let bc = spec_bc(x) as nat;
    let rg = spec_range_of(x);
    let split = spec_split(rg, prob);
    lemma_spec_bc_bounds(x);
    lemma_range_of_bounds(x);
    lemma_split_bounds(rg, prob);
    lemma_xrange_decompose(x);
    vstd::arithmetic::power2::lemma_pow2_pos(bc);
    assert(x < pow2(8 + bc));
    assert(pow2(8 + bc) <= pow2(40)) by {
        if 8 + bc < 40 {
            lemma_pow2_strictly_increases(8 + bc, 40);
        }
        assert(spec_bc(x) <= 32) by {
            if spec_bc(x) > 32 {
                if 7 + spec_bc(x) > 40 {
                    lemma_pow2_strictly_increases(40, (7 + spec_bc(x)) as nat);
                }
                assert(pow2(40) == 0x100_0000_0000) by {
                    lemma2_to64_rest();
                }
            }
        }
    }
    assert(pow2(40) == 0x100_0000_0000) by {
        lemma2_to64_rest();
    }
    let bs = spec_bigsplit(x, prob);
    assert(bs == split * pow2(bc));
    assert(1 * pow2(bc) <= split * pow2(bc) <= (rg - 1) * pow2(bc)) by (nonlinear_arith)
        requires
            1 <= split <= rg - 1 && 0 < pow2(bc),
    ;
    assert((rg - 1) * pow2(bc) == rg * pow2(bc) - 1 * pow2(bc)) by (nonlinear_arith);
    assert(x - bs == (rg - split) * pow2(bc)) by (nonlinear_arith)
        requires
            x == rg * pow2(bc) && bs == split * pow2(bc),
    ;
    // both sides stay below 2^40 and aligned
    assert(split * pow2(bc) < 256 * pow2(bc) && (rg - split) * pow2(bc) < 256 * pow2(bc))
        by (nonlinear_arith)
        requires
            split < 256 && rg - split < 256 && 0 < pow2(bc),
    ;
    assert(256 * pow2(bc) == pow2(8 + bc)) by {
        vstd::arithmetic::power2::lemma_pow2_adds(8, bc);
        lemma2_to64();
    }
    if bs >= 128 {
        lemma_bc_scaled(split, bc);
    }
    if x - bs >= 128 {
        lemma_bc_scaled(rg - split, bc);
    }
    assert(1 <= rg - split) by {
    }
    assert(pow2(bc) <= (rg - split) * pow2(bc)) by (nonlinear_arith)
        requires
            1 <= rg - split && 0 < pow2(bc),
    ;
}

/// A checked read preserves the model invariant.
pub proof fn lemma_step_wf(m: DecoderModel, prob: int)
    requires
        model_wf(m),
        0 <= prob <= 255,
    ensures
        model_wf(read_bit_step(m, prob).0),
{
    let m1 = if m.state.xrange < 128 {
        refilled(m)
    } else {
        m
    };
    if !past_eof(m1) {
        if m.state.xrange < 128 {
            if m.state.chunk_index < m.chunks.len() {
                assert(m1.state.xrange == m.state.xrange * 0x1_0000_0000);
                lemma_refill_live(m.state.xrange, 0x1_0000_0000);
            } else {
                assert(m1.state.xrange == m.state.xrange * 0x100);
                lemma_refill_live(m.state.xrange, 0x100);
            }
        }
        lemma_bigsplit_props(m1.state.xrange, prob);
    }
}

/// Shifting a sub-byte interval up by a whole refill keeps it live.
pub proof fn lemma_refill_live(x: int, f: int)
    requires
        1 <= x < 128,
        f == 0x1_0000_0000 || f == 0x100,
    ensures
        xrange_live(x * f),
        (x % 0x100_0000_0000_0000) * 0x100 == x * 0x100,
        (x % 0x1_0000_0000) * 0x1_0000_0000 == x * 0x1_0000_0000,
        128 <= x * f,
{
    let e: nat = if f == 0x1_0000_0000 {
        32
    } else {
        8
    };
    assert(pow2(e) == f) by {
        lemma2_to64();
        lemma2_to64_rest();
    }
    assert(x * f == x * pow2(e)) by (nonlinear_arith)
        requires
            f == pow2(e),
    ;
    assert(128 * f <= 0x100_0000_0000 && x * f < 128 * f && x * f >= f) by (nonlinear_arith)
        requires
            1 <= x < 128 && (f == 0x1_0000_0000 || f == 0x100),
    ;
    lemma_bc_scaled(x, e);
}

/// The speculative step never moves the chunk position backwards, and at
/// most one chunk forward.
pub proof fn lemma_fast_step_bounds(chunks: Seq<int>, s: AState, prob: int)
    ensures
        s.chunk_index <= fast_read_bit_step(chunks, s, prob).0.chunk_index <= s.chunk_index + 1,
{
}

/// The heart of the fast/slow equivalence: when a speculative read ends
/// within the real chunks, it agrees exactly with the checked read.
pub proof fn lemma_fast_step_agrees(m: DecoderModel, prob: int)
    requires
        model_wf(m),
        m.state.xrange != 0,
        0 <= prob <= 255,
    ensures
        ({
            let (s1, b) = fast_read_bit_step(m.chunks, m.state, prob);
            s1.chunk_index <= m.chunks.len() ==> read_bit_step(m, prob) == (
            DecoderModel { state: s1, ..m },
            b,
            )
        }),
{
    let (s1, b) = fast_read_bit_step(m.chunks, m.state, prob);
    if s1.chunk_index <= m.chunks.len() {
        if m.state.xrange < 128 {
            assert(m.state.chunk_index < m.chunks.len());
            assert(!past_eof(m));
            assert(refilled(m).state =~= fast_refill_state(m.chunks, m.state));
        } else {
            assert(!past_eof(m));
        }
        assert(read_bit_step(m, prob) =~~= (DecoderModel { state: s1, ..m }, b));
    }
}

/// The refill half of the speculative step, named so the equivalence proof
/// can speak about it.
pub open spec fn fast_refill_state(chunks: Seq<int>, s: AState) -> AState {
    AState {
        chunk_index: s.chunk_index + 1,
        value: (s.value % 0x1_0000_0000) * 0x1_0000_0000 + (
        if s.chunk_index < chunks.len() {
            chunks[s.chunk_index]
        } else {
            0
        }),
        xrange: (s.xrange % 0x1_0000_0000) * 0x1_0000_0000,
    }
}

/// A speculative literal never moves the chunk position backwards, and at
/// most one chunk per bit forwards.
pub proof fn lemma_fast_literal_monotone(chunks: Seq<int>, s: AState, n: int, acc: int)
    ensures
        fast_read_literal_step(chunks, s, n, acc).0.chunk_index >= s.chunk_index,
        fast_read_literal_step(chunks, s, n, acc).0.chunk_index <= s.chunk_index + (if n >= 0 {
            n
        } else {
            0int
        }),
    decreases n,
{
    if n > 0 {
        let (s1, b) = fast_read_bit_step(chunks, s, 128);
        lemma_fast_step_bounds(chunks, s, 128);
        lemma_fast_literal_monotone(chunks, s1, n - 1, (2 * acc + if b {
            1int
        } else {
            0int
        }) % 256);
    }
}

/// A dead interval can only come from a decoder already past the end, and
/// the speculative step keeps a live interval live.
pub proof fn lemma_fast_step_live(chunks: Seq<int>, s: AState, prob: int)
    requires
        chunks_ok(chunks),
        fast_state_ok(s),
        0 <= prob <= 255,
    ensures
        fast_state_ok(fast_read_bit_step(chunks, s, prob).0),
{
    let s1 = if s.xrange < 128 {
        fast_refill_state(chunks, s)
    } else {
        s
    };
    if s.xrange < 128 {
        lemma_refill_live(s.xrange, 0x1_0000_0000);
    }
    lemma_bigsplit_props(s1.xrange, prob);
}

/// Fast/slow equivalence for a whole literal.
pub proof fn lemma_fast_literal_agrees(m: DecoderModel, n: int, acc: int)
    requires
        model_wf(m),
        m.state.xrange != 0,
    ensures
        ({
            let (s1, v1) = fast_read_literal_step(m.chunks, m.state, n, acc);
            s1.chunk_index <= m.chunks.len() ==> read_literal_step(m, n, acc) == (
            DecoderModel { state: s1, ..m },
            v1,
            )
        }),
    decreases n,
{
    let (s1, v1) = fast_read_literal_step(m.chunks, m.state, n, acc);
    if s1.chunk_index <= m.chunks.len() {
        if n <= 0 {
            assert(DecoderModel { state: s1, ..m } =~~= m);
        } else {
            let (sf, b) = fast_read_bit_step(m.chunks, m.state, 128);
            let acc1 = (2 * acc + if b {
                1int
            } else {
                0int
            }) % 256;
            lemma_fast_literal_monotone(m.chunks, sf, n - 1, acc1);
            assert(sf.chunk_index <= m.chunks.len());
            lemma_fast_step_agrees(m, 128);
            lemma_step_wf(m, 128);
            lemma_fast_step_live(m.chunks, m.state, 128);
            let mf = DecoderModel { state: sf, ..m };
            assert(mf == read_bit_step(m, 128).0);
            lemma_fast_literal_agrees(mf, n - 1, acc1);
        }
    }
}

/// A checked literal preserves the model invariant and keeps the interval
/// live.
pub proof fn lemma_literal_wf(m: DecoderModel, n: int, acc: int)
    requires
        model_wf(m),
    ensures
        model_wf(read_literal_step(m, n, acc).0),
    decreases n,
{
    if n > 0 {
        let (m1, b) = read_bit_step(m, 128);
        lemma_step_wf(m, 128);
        lemma_literal_wf(m1, n - 1, (2 * acc + if b {
            1int
        } else {
            0int
        }) % 256);
    }
}

/// A checked optional signed value preserves the model invariant.
pub proof fn lemma_optional_wf(m: DecoderModel, n: int)
    requires
        model_wf(m),
    ensures
        model_wf(read_optional_signed_value_step(m, n).0),
{
    let (m1, flag) = read_bit_step(m, 128);
    lemma_step_wf(m, 128);
    if flag {
        lemma_literal_wf(m1, n, 0);
        lemma_step_wf(read_literal_step(m1, n, 0).0, 128);
    }
}

/// Fast/slow equivalence for an optional signed value.
pub proof fn lemma_fast_optional_agrees(m: DecoderModel, n: int)
    requires
        model_wf(m),
        m.state.xrange != 0,
    ensures
        ({
            let (s1, v1) = fast_read_optional_signed_value_step(m.chunks, m.state, n);
            s1.chunk_index <= m.chunks.len() ==> read_optional_signed_value_step(m, n) == (
            DecoderModel { state: s1, ..m },
            v1,
            )
        }),
{
    let (sf, flag) = fast_read_bit_step(m.chunks, m.state, 128);
    let (s1, v1) = fast_read_optional_signed_value_step(m.chunks, m.state, n);
    if s1.chunk_index <= m.chunks.len() {
        if !flag {
            lemma_fast_step_agrees(m, 128);
        } else {
            let (sl, mag) = fast_read_literal_step(m.chunks, sf, n, 0);
            let (s2, sign) = fast_read_bit_step(m.chunks, sl, 128);
            lemma_fast_step_bounds(m.chunks, sl, 128);
            lemma_fast_literal_monotone(m.chunks, sf, n, 0);
            assert(sf.chunk_index <= m.chunks.len());
            lemma_fast_step_agrees(m, 128);
            lemma_step_wf(m, 128);
            lemma_fast_step_live(m.chunks, m.state, 128);
            let mf = DecoderModel { state: sf, ..m };
            assert(mf == read_bit_step(m, 128).0);
            assert(sl.chunk_index <= m.chunks.len());
            lemma_fast_literal_agrees(mf, n, 0);
            lemma_literal_wf(mf, n, 0);
            let ml = DecoderModel { state: sl, ..m };
            assert(ml == read_literal_step(mf, n, 0).0);
            assert(fast_state_ok(sl)) by {
                lemma_fast_batch_live(m.chunks, sf, n, 0);
            }
            lemma_fast_step_agrees(ml, 128);
        }
    }
}

/// A speculative literal keeps the interval live.
pub proof fn lemma_fast_batch_live(chunks: Seq<int>, s: AState, n: int, acc: int)
    requires
        chunks_ok(chunks),
        fast_state_ok(s),
    ensures
        fast_state_ok(fast_read_literal_step(chunks, s, n, acc).0),
    decreases n,
{
    if n > 0 {
        let (s1, b) = fast_read_bit_step(chunks, s, 128);
        lemma_fast_step_live(chunks, s, 128);
        lemma_fast_batch_live(chunks, s1, n - 1, (2 * acc + if b {
            1int
        } else {
            0int
        }) % 256);
    }
}

/// A checked tree walk preserves the model invariant.
pub proof fn lemma_tree_wf(m: DecoderModel, tree: Seq<TreeNode>, index: int)
    requires
        model_wf(m),
        tree_well_formed(tree),
        0 <= index < tree.len(),
    ensures
        model_wf(read_tree_step(m, tree, index).0),
    decreases tree.len() - index,
{
    let node = tree[index];
    let (m1, b) = read_bit_step(m, node.prob as int);
    lemma_step_wf(m, node.prob as int);
    let t = if b {
        node.right as int
    } else {
        node.left as int
    };
    if t < tree.len() {
        lemma_tree_wf(m1, tree, t);
    }
}

/// A speculative tree walk never moves the chunk position backwards.
pub proof fn lemma_fast_tree_monotone(chunks: Seq<int>, s: AState, tree: Seq<TreeNode>, index: int)
    requires
        tree_well_formed(tree),
        0 <= index < tree.len(),
    ensures
        fast_read_tree_step(chunks, s, tree, index).0.chunk_index >= s.chunk_index,
    decreases tree.len() - index,
{
    let node = tree[index];
    let (s1, b) = fast_read_bit_step(chunks, s, node.prob as int);
    lemma_fast_step_bounds(chunks, s, node.prob as int);
    let t = if b {
        node.right as int
    } else {
        node.left as int
    };
    if t < tree.len() {
        lemma_fast_tree_monotone(chunks, s1, tree, t);
    }
}

/// Fast/slow equivalence for a whole tree walk.
pub proof fn lemma_fast_tree_agrees(m: DecoderModel, tree: Seq<TreeNode>, index: int)
    requires
        model_wf(m),
        m.state.xrange != 0,
        tree_well_formed(tree),
        0 <= index < tree.len(),
    ensures
        ({
            let (s1, v1) = fast_read_tree_step(m.chunks, m.state, tree, index);
            s1.chunk_index <= m.chunks.len() ==> read_tree_step(m, tree, index) == (
            DecoderModel { state: s1, ..m },
            v1,
            )
        }),
    decreases tree.len() - index,
{
    let node = tree[index];
    let (s1, v1) = fast_read_tree_step(m.chunks, m.state, tree, index);
    if s1.chunk_index <= m.chunks.len() {
        let (sf, b) = fast_read_bit_step(m.chunks, m.state, node.prob as int);
        let t = if b {
            node.right as int
        } else {
            node.left as int
        };
        if t < tree.len() {
            lemma_fast_tree_monotone(m.chunks, sf, tree, t);
        }
        assert(sf.chunk_index <= m.chunks.len());
        lemma_fast_step_agrees(m, node.prob as int);
        lemma_step_wf(m, node.prob as int);
        lemma_fast_step_live(m.chunks, m.state, node.prob as int);
        let mf = DecoderModel { state: sf, ..m };
        assert(mf == read_bit_step(m, node.prob as int).0);
        if t < tree.len() {
            lemma_fast_tree_agrees(mf, tree, t);
        }
    }
}

/// The chunk words that a buffer of 4-byte chunks spells, big-endian.
pub open spec fn words_of(ws: Seq<[u8; 4]>) -> Seq<int> {
    Seq::new(ws.len(), |i: int| be_word(ws[i]@))
}

/// The two-tier end-of-stream leniency, exactly: with the tail bytes spent,
/// one further refill still succeeds on the implicit zero byte; after that,
/// the very next refill trips the sentinel and the read fails with its state
/// untouched.
pub proof fn lemma_eof_leniency(m: DecoderModel, prob: int)
    requires
        model_wf(m),
        0 <= prob <= 255,
        m.state.xrange < 128,
        m.state.chunk_index >= m.chunks.len(),
    ensures
        m.final_bytes_remaining == 0 ==> !past_eof(read_bit_step(m, prob).0),
        m.final_bytes_remaining == -1 ==> past_eof(read_bit_step(m, prob).0) && read_bit_step(
            m,
            prob,
        ).0.state == m.state && read_bit_step(m, prob).1 == false,
{
}

/// A decoder past the end stays past the end and fails every further read,
/// without moving.
pub proof fn lemma_eof_absorbing(m: DecoderModel, prob: int)
    requires
        model_wf(m),
        past_eof(m),
    ensures
        read_bit_step(m, prob).0 == m,
        read_bit_step(m, prob).1 == false,
{
    assert(read_bit_step(m, prob).0 =~~= m);
}

/// Every node of the table records its own position; the speculative walk,
/// which moves from node to node by value, needs this to know where it is.
pub open spec fn tree_indexed(t: Seq<TreeNode>) -> bool {
    forall|i: int| 0 <= i < t.len() ==> (#[trigger] t[i]).index == i
}

/// A read result whose validity has not been checked yet; the error state
/// lives in the decoder and must be confirmed through `check`.
#[must_use]
pub struct BitResult<T> {
    pub value_if_not_past_eof: T,
}

/// The zero-cost token that a chain of deferred reads threads through to the
/// final `check`.
#[must_use]
pub struct BitResultAccumulator;

impl<T> BitResult<T> {
    fn ok(value: T) -> (r: Self)
        ensures
            r.value_if_not_past_eof == value,
    {
        Self { value_if_not_past_eof: value }
    }

    /// Hands out the provisional value and folds the burden of checking it
    /// into the accumulator.
    pub fn or_accumulate(self, acc: &mut BitResultAccumulator) -> (r: T)
        ensures
            r == self.value_if_not_past_eof,
    {
        self.value_if_not_past_eof
    }
}

impl BitResult<bool> {
    fn err() -> (r: Self)
        ensures
            r.value_if_not_past_eof == false,
    {
        Self { value_if_not_past_eof: false }
    }
}

/// The model a freshly initialized decoder takes: the first chunk (or tail
/// byte, or nothing at all) is consumed immediately to prime the accumulator,
/// and the interval starts as a full top byte.
pub open spec fn init_model(words: Seq<[u8; 4]>, len: int) -> DecoderModel {
    let n_chunks = if len == 4 * words.len() {
        words.len() as int
    } else {
        words.len() - 1
    };
    let nb = len - 4 * n_chunks;
    let chunks = Seq::new(n_chunks as nat, |i: int| be_word(words[i]@));
    let fb0 = Seq::new(
        3,
        |i: int|
            if i < nb {
                words[words.len() - 1]@[i] as int
            } else {
                0
            },
    );
    if n_chunks > 0 {
        DecoderModel {
            chunks,
            state: AState { chunk_index: 1, value: be_word(words[0]@), xrange: 0xFF00_0000 },
            final_bytes: fb0,
            final_bytes_remaining: nb,
        }
    } else if nb > 0 {
        DecoderModel {
            chunks,
            state: AState { chunk_index: 1, value: fb0[0], xrange: 0xFF },
            final_bytes: seq![fb0[1], fb0[2], fb0[0]],
            final_bytes_remaining: nb - 1,
        }
    } else {
        DecoderModel {
            chunks,
            state: AState { chunk_index: 1, value: 0, xrange: 0xFF },
            final_bytes: fb0,
            final_bytes_remaining: -1,
        }
    }
}

/// The boolean decoder with the implicit bit counter, over one compressed
/// partition.
pub struct ArithmeticDecoder {
    chunks: Vec<[u8; 4]>,
    state: State,
    final_bytes: [u8; 3],
    final_bytes_remaining: i8,
}

/// The disposable copy of the decoding position that the speculative fast
/// path works on.
pub struct FastDecoder {
    state: State,
}

impl View for ArithmeticDecoder {
    type V = DecoderModel;

    closed spec fn view(&self) -> DecoderModel {
        DecoderModel {
            chunks: words_of(self.chunks@),
            state: self.state@,
            final_bytes: Seq::new(3, |i: int| self.final_bytes@[i] as int),
            final_bytes_remaining: self.final_bytes_remaining as int,
        }
    }
}

impl ArithmeticDecoder {
    /// The decoder's invariant: every reachable decoder satisfies it.
    pub open spec fn wf(&self) -> bool {
        model_wf(self@)
    }

    /// A decoder with no stream at all: every checked read on it fails.
    pub fn new() -> (r: ArithmeticDecoder)
        ensures
            r.wf(),
            r@ == (DecoderModel {
                chunks: Seq::<int>::empty(),
                state: AState { chunk_index: 0, value: 0, xrange: 0 },
                final_bytes: seq![0, 0, 0],
                final_bytes_remaining: FINAL_BYTES_REMAINING_EOF as int,
            }),
            past_eof(r@),
    {
        let state = State { chunk_index: 0, value: 0, xrange: 0 };
        let r = ArithmeticDecoder {
            chunks: Vec::new(),
            state,
            final_bytes: [0, 0, 0],
            final_bytes_remaining: FINAL_BYTES_REMAINING_EOF,
        };
        proof {
            assert(r@.chunks =~= Seq::<int>::empty());
            assert(r@.final_bytes =~= seq![0int, 0, 0]);
            assert(r@ =~~= DecoderModel {
                chunks: Seq::<int>::empty(),
                state: AState { chunk_index: 0, value: 0, xrange: 0 },
                final_bytes: seq![0, 0, 0],
                final_bytes_remaining: FINAL_BYTES_REMAINING_EOF as int,
            });
        }
        r
    }

    /// Replaces this decoder with one initialized over the given partition.
    pub fn init(&mut self, buf: Vec<[u8; 4]>, len: usize) -> (res: Result<(), DecodingError>)
        requires
            buf@.len() <= 0x1000_0000,
            buf@.len() == 0 || len as int == 4 * buf@.len() || (4 * buf@.len() - 4 <= len as int
                && (len as int) < 4 * buf@.len()),
            (len as int) != 4 * buf@.len() && buf@.len() > 0 ==> forall|i: int|
                len as int - (4 * buf@.len() - 4) <= i < 4 ==> #[trigger] buf@[buf@.len() - 1]@[i]
                    == 0,
        ensures
            buf@.len() == 0 && len != 0 ==> res == Result::<(), DecodingError>::Err(
                DecodingError::NotEnoughInitData,
            ) && *final(self) == *old(self),
            !(buf@.len() == 0 && len != 0) ==> res == Result::<(), DecodingError>::Ok(())
                && final(self).wf() && final(self)@ == init_model(buf@, len as int),
    {
        match Self::initialized(buf, len) {
            Ok(d) => {
                *self = d;
                Ok(())
            },
            Err(e) => Err(e),
        }
    }

    /// Frames one partition and primes the decoder: whole chunks plus up to
    /// three tail bytes; the first unit of input is consumed immediately.
    pub fn initialized(buf: Vec<[u8; 4]>, len: usize) -> (res: Result<Self, DecodingError>)
        requires
            buf@.len() <= 0x1000_0000,
            buf@.len() == 0 || len as int == 4 * buf@.len() || (4 * buf@.len() - 4 <= len as int
                && (len as int) < 4 * buf@.len()),
            (len as int) != 4 * buf@.len() && buf@.len() > 0 ==> forall|i: int|
                len as int - (4 * buf@.len() - 4) <= i < 4 ==> #[trigger] buf@[buf@.len() - 1]@[i]
                    == 0,
        ensures
            buf@.len() == 0 && len != 0 ==> res == Result::<Self, DecodingError>::Err(
                DecodingError::NotEnoughInitData,
            ),
            !(buf@.len() == 0 && len != 0) ==> match res {
                Ok(d) => d.wf() && d@ == init_model(buf@, len as int),
                Err(_) => false,
            },
    {
        let ghost words = buf@;
        let mut buf = buf;
        let mut final_bytes: [u8; 3] = [0, 0, 0];
        let mut final_bytes_remaining: i8 = 0;

        if len != 4 * buf.len() {
            let last_chunk = match buf.pop() {
                Some(c) => c,
                None => {
                    return Err(DecodingError::NotEnoughInitData);
                },
            };
            let len_rounded_down = 4 * buf.len();
            let num_bytes_popped = len - len_rounded_down;
            final_bytes = match num_bytes_popped {
                0 => [0, 0, 0],
                1 => [last_chunk[0], 0, 0],
                2 => [last_chunk[0], last_chunk[1], 0],
                _ => [last_chunk[0], last_chunk[1], last_chunk[2]],
            };
            final_bytes_remaining = num_bytes_popped as i8;
        }

        let state = if buf.len() > 0 {
            let v = word_from_be_bytes(buf[0]);
            State { chunk_index: 1, value: v as u64, xrange: 0xFF00_0000 }
        } else {
            let value: u64 = if final_bytes_remaining > 0 {
                let byte = final_bytes[0];
                final_bytes = [final_bytes[1], final_bytes[2], final_bytes[0]];
                byte as u64
            } else {
                0
            };
            final_bytes_remaining = final_bytes_remaining - 1;
            State { chunk_index: 1, value, xrange: 0xFF }
        };
        let d = ArithmeticDecoder { chunks: buf, state, final_bytes, final_bytes_remaining };
        proof {
            assert(pow2(24) == 0x100_0000) by {
                lemma2_to64();
            }
            if d@.chunks.len() > 0 {
                assert(255 * pow2(24) == 0xFF00_0000);
                lemma_bc_scaled(255, 24);
            } else {
                assert(spec_bc(0xFF) == 0);
                assert(pow2(0) == 1) by {
                    lemma2_to64();
                }
            }
            assert(d@ =~~= init_model(words, len as int));
        }
        Ok(d)
    }

    /// Starts a chain of reads whose validity is checked once at the end.
    pub fn start_accumulated_result(&mut self) -> (acc: BitResultAccumulator)
        ensures
            *final(self) == *old(self),
    {
        BitResultAccumulator
    }

    /// Confirms a chain of deferred reads: the provisional value may be
    /// trusted exactly when the decoder never crossed the sentinel.
    pub fn check<T>(&self, acc: BitResultAccumulator, value_if_not_past_eof: T) -> (res: Result<
        T,
        DecodingError,
    >)
        ensures
            past_eof(self@) ==> res == Result::<T, DecodingError>::Err(
                DecodingError::BitStreamError,
            ),
            !past_eof(self@) ==> res == Result::<T, DecodingError>::Ok(value_if_not_past_eof),
    {
        if self.is_past_eof() {
            Err(DecodingError::BitStreamError)
        } else {
            Ok(value_if_not_past_eof)
        }
    }

    /// Re-wraps a value whose check will be done by another accumulator.
    fn keep_accumulating<T>(&self, acc: BitResultAccumulator, value_if_not_past_eof: T) -> (r:
        BitResult<T>)
        ensures
            r.value_if_not_past_eof == value_if_not_past_eof,
    {
        BitResult::ok(value_if_not_past_eof)
    }

    /// Starts a speculative batch on a disposable copy of the position.
    fn fast(&self) -> (r: FastDecoder)
        ensures
            r.state@ == self@.state,
    {
        FastDecoder { state: self.state }
    }

    /// Refills from the tail bytes: one real byte while any remain, then the
    /// single tolerated phantom zero byte, then the sentinel.
    fn load_from_final_bytes(&mut self)
        requires
            old(self).wf(),
            old(self)@.state.xrange < 128,
            old(self)@.state.chunk_index >= old(self)@.chunks.len(),
        ensures
            final(self).wf(),
            final(self)@ == tail_refilled(old(self)@),
    {
        proof {
            if self.final_bytes_remaining >= 0 {
                assert(!past_eof(self@));
                assert(self@.state.xrange != 0);
                lemma_refill_live(self@.state.xrange, 0x100);
            }
        }
        if self.final_bytes_remaining > 0 {
            self.final_bytes_remaining = self.final_bytes_remaining - 1;
            let byte = self.final_bytes[0];
            self.final_bytes = [self.final_bytes[1], self.final_bytes[2], self.final_bytes[0]];
            proof {
                let x = self.state.xrange;
                assert((x << 8u64) | 0u64 == x << 8u64) by (bit_vector);
                lemma_u64_shl8_or(x, 0);
                lemma_u64_shl8_or(self.state.value, byte as u64);
            }
            self.state.xrange = self.state.xrange << 8u64;
            self.state.value = (self.state.value << 8u64) | (byte as u64);
            proof {
                assert(self@ =~~= tail_refilled(old(self)@));
            }
        } else if self.final_bytes_remaining == 0 {
            self.final_bytes_remaining = -1;
            proof {
                let x = self.state.xrange;
                let v = self.state.value;
                assert((x << 8u64) | 0u64 == x << 8u64) by (bit_vector);
                assert((v << 8u64) | 0u64 == v << 8u64) by (bit_vector);
                lemma_u64_shl8_or(x, 0);
                lemma_u64_shl8_or(v, 0);
            }
            self.state.xrange = self.state.xrange << 8u64;
            self.state.value = self.state.value << 8u64;
            proof {
                assert(self@ =~~= tail_refilled(old(self)@));
            }
        } else {
            self.final_bytes_remaining = FINAL_BYTES_REMAINING_EOF;
            proof {
                assert(self@ =~~= tail_refilled(old(self)@));
            }
        }
    }

    /// Whether the decoder has crossed the end-of-stream sentinel.
    fn is_past_eof(&self) -> (r: bool)
        ensures
            r == past_eof(self@),
    {
        self.final_bytes_remaining == FINAL_BYTES_REMAINING_EOF
    }

    /// The fully checked read of one bit.
    #[verifier::rlimit(50)]
    fn cold_read_bit(&mut self, probability: u8) -> (res: BitResult<bool>)
        requires
            old(self).wf(),
        ensures
            final(self).wf(),
            final(self)@ == read_bit_step(old(self)@, probability as int).0,
            res.value_if_not_past_eof == read_bit_step(old(self)@, probability as int).1,
    {
        let ghost m0 = self@;
        proof {
            lemma_u64_clz_small(self.state.xrange);
            lemma_step_wf(m0, probability as int);
        }
        if self.state.xrange.leading_zeros() > 56 {
            if self.state.chunk_index < self.chunks.len() {
                let chunk = self.chunks[self.state.chunk_index];
                let v = word_from_be_bytes(chunk);
                self.state.chunk_index = self.state.chunk_index + 1;
                proof {
                    let x = self.state.xrange;
                    assert((x << 32u64) | 0u64 == x << 32u64) by (bit_vector);
                    lemma_u64_shl32_or(x, 0);
                    lemma_u64_shl32_or(self.state.value, v as u64);
                    assert(x != 0);
                    lemma_refill_live(x as int, 0x1_0000_0000);
                }
                self.state.xrange = self.state.xrange << 32u64;
                self.state.value = (self.state.value << 32u64) | (v as u64);
                proof {
                    assert(self@ =~~= refilled(m0));
                }
            } else {
                self.load_from_final_bytes();
                proof {
                    assert(self@ =~~= refilled(m0));
                }
                if self.is_past_eof() {
                    proof {
                        assert(self@ =~~= read_bit_step(m0, probability as int).0);
                    }
                    return BitResult::err();
                }
            }
        }
        let ghost m1 = self@;
        proof {
            assert(m1 == if m0.state.xrange < 128 {
                refilled(m0)
            } else {
                m0
            });
            assert(xrange_live(m1.state.xrange) && m1.state.xrange >= 128);
            lemma_u64_clz_bc(self.state.xrange);
            lemma_spec_bc_bounds(self.state.xrange as int);
            lemma_range_of_bounds(self.state.xrange as int);
            lemma_xrange_decompose(self.state.xrange as int);
            lemma_bigsplit_props(self.state.xrange as int, probability as int);
        }

        let xrange = self.state.xrange;
        let bsr = xrange.leading_zeros();
        let bit_count: u64 = (56 - bsr) as u64;
        proof {
            lemma_u64_shr_is_div(xrange, bit_count);
        }
        let range = (xrange >> bit_count) as u32;
        proof {
            lemma_split_bounds(range as int, probability as int);
            assert(pow2(8) == 256) by {
                lemma2_to64();
            }
        }
        let probability32 = probability as u32;
        let scaled = (range - 1) * probability32;
        proof {
            lemma_u32_shr_is_div(scaled, 8);
        }
        let split = 1 + (scaled >> 8u32);
        proof {
            assert(0 < pow2(bit_count as nat) <= pow2(32) < 0x2_0000_0000) by {
                if (bit_count as nat) < 32 {
                    lemma_pow2_strictly_increases(bit_count as nat, 32);
                }
                vstd::arithmetic::power2::lemma_pow2_pos(bit_count as nat);
                lemma2_to64();
                lemma2_to64_rest();
            }
            assert(split * pow2(bit_count as nat) < 0x1_0000_0000_0000_0000) by (nonlinear_arith)
                requires
                    0 <= split < 256 && 0 < pow2(bit_count as nat) < 0x2_0000_0000,
            ;
            lemma_u64_shl_is_mul(split as u64, bit_count);
        }
        let bigsplit = (split as u64) << bit_count;

        let retval = if let Some(new_value) = self.state.value.checked_sub(bigsplit) {
            self.state.xrange = self.state.xrange - bigsplit;
            self.state.value = new_value;
            true
        } else {
            self.state.xrange = bigsplit;
            false
        };
        proof {
            assert(self@ =~~= read_bit_step(m0, probability as int).0);
        }
        BitResult::ok(retval)
    }

    /// Reads one bit with the given probability: speculatively when far from
    /// the end of the stream, through the checked path otherwise.
    pub fn read_bool(&mut self, probability: u8) -> (res: BitResult<bool>)
        requires
            old(self).wf(),
        ensures
            final(self).wf(),
            final(self)@ == read_bit_step(old(self)@, probability as int).0,
            res.value_if_not_past_eof == read_bit_step(old(self)@, probability as int).1,
    {
        if self.state.xrange != 0 {
            match self.fast().read_bool(&self.chunks, probability) {
                Some((b, st)) => {
                    proof {
                        lemma_fast_step_agrees(self@, probability as int);
                        lemma_step_wf(self@, probability as int);
                    }
                    self.state = st;
                    proof {
                        assert(self@ =~~= read_bit_step(old(self)@, probability as int).0);
                    }
                    return BitResult::ok(b);
                },
                None => {},
            }
        }
        self.cold_read_bool(probability)
    }

    /// Reads one equiprobable flag bit.
    pub fn read_flag(&mut self) -> (res: BitResult<bool>)
        requires
            old(self).wf(),
        ensures
            final(self).wf(),
            final(self)@ == read_bit_step(old(self)@, 128).0,
            res.value_if_not_past_eof == read_bit_step(old(self)@, 128).1,
    {
        if self.state.xrange != 0 {
            match self.fast().read_flag(&self.chunks) {
                Some((b, st)) => {
                    proof {
                        lemma_fast_step_agrees(self@, 128);
                        lemma_step_wf(self@, 128);
                    }
                    self.state = st;
                    proof {
                        assert(self@ =~~= read_bit_step(old(self)@, 128).0);
                    }
                    return BitResult::ok(b);
                },
                None => {},
            }
        }
        self.cold_read_flag()
    }

    /// Reads an `n`-bit unsigned literal, most significant bit first.
    pub fn read_literal(&mut self, n: u8) -> (res: BitResult<u8>)
        requires
            old(self).wf(),
        ensures
            final(self).wf(),
            final(self)@ == read_literal_step(old(self)@, n as int, 0).0,
            res.value_if_not_past_eof as int == read_literal_step(old(self)@, n as int, 0).1,
    {
        if self.state.xrange != 0 {
            match self.fast().read_literal(&self.chunks, n) {
                Some((v, st)) => {
                    proof {
                        lemma_fast_literal_agrees(self@, n as int, 0);
                        lemma_literal_wf(self@, n as int, 0);
                    }
                    self.state = st;
                    proof {
                        assert(self@ =~~= read_literal_step(old(self)@, n as int, 0).0);
                    }
                    return BitResult::ok(v);
                },
                None => {},
            }
        }
        self.cold_read_literal(n)
    }

    /// Reads one flag bit; on a clear flag returns zero without touching any
    /// further bits, else an `n`-bit magnitude and a sign bit.
    pub fn read_optional_signed_value(&mut self, n: u8) -> (res: BitResult<i32>)
        requires
            old(self).wf(),
        ensures
            final(self).wf(),
            final(self)@ == read_optional_signed_value_step(old(self)@, n as int).0,
            res.value_if_not_past_eof as int == read_optional_signed_value_step(
                old(self)@,
                n as int,
            ).1,
    {
        if self.state.xrange != 0 {
            match self.fast().read_optional_signed_value(&self.chunks, n) {
                Some((v, st)) => {
                    proof {
                        lemma_fast_optional_agrees(self@, n as int);
                        lemma_optional_wf(self@, n as int);
                    }
                    self.state = st;
                    proof {
                        assert(self@ =~~= read_optional_signed_value_step(
                            old(self)@,
                            n as int,
                        ).0);
                    }
                    return BitResult::ok(v);
                },
                None => {},
            }
        }
        self.cold_read_optional_signed_value(n)
    }

    /// Walks a probability tree from its root.
    pub fn read_with_tree(&mut self, tree: &[TreeNode]) -> (res: BitResult<i8>)
        requires
            old(self).wf(),
            tree_well_formed(tree@),
            tree_indexed(tree@),
            tree@.len() > 0,
        ensures
            final(self).wf(),
            final(self)@ == read_tree_step(old(self)@, tree@, 0).0,
            res.value_if_not_past_eof as int == read_tree_step(old(self)@, tree@, 0).1,
    {
        let first_node = tree[0];
        self.read_with_tree_with_first_node(tree, first_node)
    }

    /// Walks a probability tree starting at a node the caller already holds.
    pub fn read_with_tree_with_first_node(&mut self, tree: &[TreeNode], first_node: TreeNode) -> (res:
        BitResult<i8>)
        requires
            old(self).wf(),
            tree_well_formed(tree@),
            tree_indexed(tree@),
            0 <= first_node.index < tree@.len(),
            tree@[first_node.index as int] == first_node,
        ensures
            final(self).wf(),
            final(self)@ == read_tree_step(old(self)@, tree@, first_node.index as int).0,
            res.value_if_not_past_eof as int == read_tree_step(
                old(self)@,
                tree@,
                first_node.index as int,
            ).1,
    {
        if self.state.xrange != 0 {
            match self.fast().read_with_tree(&self.chunks, tree, first_node) {
                Some((v, st)) => {
                    proof {
                        lemma_fast_tree_agrees(self@, tree@, first_node.index as int);
                        lemma_tree_wf(self@, tree@, first_node.index as int);
                    }
                    self.state = st;
                    proof {
                        assert(self@ =~~= read_tree_step(
                            old(self)@,
                            tree@,
                            first_node.index as int,
                        ).0);
                    }
                    return BitResult::ok(v);
                },
                None => {},
            }
        }
        self.cold_read_with_tree(tree, first_node.index as usize)
    }

    /// The checked read of one bit, by any probability.
    #[verifier::rlimit(30)]
    pub fn cold_read_bool(&mut self, probability: u8) -> (res: BitResult<bool>)
        requires
            old(self).wf(),
        ensures
            final(self).wf(),
            final(self)@ == read_bit_step(old(self)@, probability as int).0,
            res.value_if_not_past_eof == read_bit_step(old(self)@, probability as int).1,
    {
        self.cold_read_bit(probability)
    }

    /// The checked read of one equiprobable flag bit.
    pub fn cold_read_flag(&mut self) -> (res: BitResult<bool>)
        requires
            old(self).wf(),
        ensures
            final(self).wf(),
            final(self)@ == read_bit_step(old(self)@, 128).0,
            res.value_if_not_past_eof == read_bit_step(old(self)@, 128).1,
    {
        self.cold_read_bit(128)
    }

    /// The checked read of an `n`-bit literal.
    pub fn cold_read_literal(&mut self, n: u8) -> (res: BitResult<u8>)
        requires
            old(self).wf(),
        ensures
            final(self).wf(),
            final(self)@ == read_literal_step(old(self)@, n as int, 0).0,
            res.value_if_not_past_eof as int == read_literal_step(old(self)@, n as int, 0).1,
    {
        let ghost m0 = self@;
        let mut v = 0u8;
        let mut res = self.start_accumulated_result();

        let mut i: u8 = 0;
        while i < n
            invariant
                i <= n,
                self.wf(),
                read_literal_step(m0, n as int, 0) == read_literal_step(
                    self@,
                    n as int - i,
                    v as int,
                ),
            decreases n - i,
        {
            let b = self.cold_read_flag().or_accumulate(&mut res);
            proof {
                lemma_u8_shl1_add(v, if b {
                    1
                } else {
                    0
                });
            }
            v = (v << 1u8) + (if b {
                1u8
            } else {
                0u8
            });
            i = i + 1;
        }

        self.keep_accumulating(res, v)
    }

    /// The checked read of an optional signed value.
    fn cold_read_optional_signed_value(&mut self, n: u8) -> (res: BitResult<i32>)
        requires
            old(self).wf(),
        ensures
            final(self).wf(),
            final(self)@ == read_optional_signed_value_step(old(self)@, n as int).0,
            res.value_if_not_past_eof as int == read_optional_signed_value_step(
                old(self)@,
                n as int,
            ).1,
    {
        let mut res = self.start_accumulated_result();
        let flag = self.cold_read_flag().or_accumulate(&mut res);
        if !flag {
            // Reading anything here would desynchronize the stream.
            return self.keep_accumulating(res, 0);
        }
        let magnitude = self.cold_read_literal(n).or_accumulate(&mut res);
        let sign = self.cold_read_flag().or_accumulate(&mut res);

        let value = if sign {
            -(magnitude as i32)
        } else {
            magnitude as i32
        };
        self.keep_accumulating(res, value)
    }

    /// The checked walk of a probability tree from a start index.
    pub fn cold_read_with_tree(&mut self, tree: &[TreeNode], start: usize) -> (res: BitResult<i8>)
        requires
            old(self).wf(),
            tree_well_formed(tree@),
            start < tree@.len(),
        ensures
            final(self).wf(),
            final(self)@ == read_tree_step(old(self)@, tree@, start as int).0,
            res.value_if_not_past_eof as int == read_tree_step(old(self)@, tree@, start as int).1,
    {
        let ghost m0 = self@;
        let mut index = start;
        let mut res = self.start_accumulated_result();
        let mut leaf: i8 = 0;

        loop
            invariant_except_break
                self.wf(),
                tree_well_formed(tree@),
                0 <= index < tree@.len(),
                read_tree_step(m0, tree@, start as int) == read_tree_step(
                    self@,
                    tree@,
                    index as int,
                ),
            ensures
                self.wf(),
                read_tree_step(m0, tree@, start as int) == (self@, leaf as int),
            decreases tree@.len() - index,
        {
            let ghost m_iter = self@;
            let node = tree[index];
            let prob = node.prob;
            let b = self.cold_read_bit(prob).or_accumulate(&mut res);
            let t = if b {
                node.right
            } else {
                node.left
            };
            let new_index = t as usize;
            if new_index < tree.len() {
                index = new_index;
            } else {
                leaf = TreeNode::value_from_branch(t);
                proof {
                    assert(read_tree_step(m_iter, tree@, index as int) == (
                    self@,
                    spec_value_from_branch(t as int),
                    ));
                }
                break;
            }
        }
        self.keep_accumulating(res, leaf)
    }
}

impl FastDecoder {
    /// Commits the speculative batch if it never read a substituted chunk:
    /// a position at most the chunk count means every refill was real.
    fn return_if_valid<T>(self, chunks: &Vec<[u8; 4]>, value_if_not_past_eof: T) -> (r: Option<
        (T, State),
    >)
        ensures
            match r {
                Some(p) => self.state@.chunk_index <= chunks@.len() && p.0 == value_if_not_past_eof
                    && p.1 == self.state,
                None => self.state@.chunk_index > chunks@.len(),
            },
    {
        if self.state.chunk_index <= chunks.len() {
            Some((value_if_not_past_eof, self.state))
        } else {
            None
        }
    }

    /// One speculative bit, committed only if every refill was real.
    fn read_bool(self, chunks: &Vec<[u8; 4]>, probability: u8) -> (r: Option<(bool, State)>)
        requires
            chunks_ok(words_of(chunks@)),
            fast_state_ok(self.state@),
            self.state@.chunk_index <= chunks@.len() + 1,
        ensures
            ({
                let (s1, b1) = fast_read_bit_step(words_of(chunks@), self.state@, probability as int);
                match r {
                    Some(p) => p.1@ == s1 && p.0 == b1 && s1.chunk_index <= chunks@.len(),
                    None => s1.chunk_index > chunks@.len(),
                }
            }),
    {
        let mut this = self;
        let bit = this.fast_read_bit(chunks, probability);
        this.return_if_valid(chunks, bit)
    }

    /// One speculative flag bit, committed only if every refill was real.
    fn read_flag(self, chunks: &Vec<[u8; 4]>) -> (r: Option<(bool, State)>)
        requires
            chunks_ok(words_of(chunks@)),
            fast_state_ok(self.state@),
            self.state@.chunk_index <= chunks@.len() + 1,
        ensures
            ({
                let (s1, b1) = fast_read_bit_step(words_of(chunks@), self.state@, 128);
                match r {
                    Some(p) => p.1@ == s1 && p.0 == b1 && s1.chunk_index <= chunks@.len(),
                    None => s1.chunk_index > chunks@.len(),
                }
            }),
    {
        let mut this = self;
        let value = this.fast_read_flag(chunks);
        this.return_if_valid(chunks, value)
    }

    /// One speculative literal, committed only if every refill was real.
    fn read_literal(self, chunks: &Vec<[u8; 4]>, n: u8) -> (r: Option<(u8, State)>)
        requires
            chunks_ok(words_of(chunks@)),
            fast_state_ok(self.state@),
            self.state@.chunk_index <= chunks@.len() + 1,
        ensures
            ({
                let (s1, v1) = fast_read_literal_step(words_of(chunks@), self.state@, n as int, 0);
                match r {
                    Some(p) => p.1@ == s1 && p.0 as int == v1 && s1.chunk_index <= chunks@.len(),
                    None => s1.chunk_index > chunks@.len(),
                }
            }),
    {
        let mut this = self;
        let value = this.fast_read_literal(chunks, n);
        this.return_if_valid(chunks, value)
    }

    /// One speculative optional signed value, committed only if every refill
    /// was real.
    fn read_optional_signed_value(self, chunks: &Vec<[u8; 4]>, n: u8) -> (r: Option<(i32, State)>)
        requires
            chunks_ok(words_of(chunks@)),
            fast_state_ok(self.state@),
            self.state@.chunk_index <= chunks@.len() + 1,
        ensures
            ({
                let (s1, v1) = fast_read_optional_signed_value_step(
                    words_of(chunks@),
                    self.state@,
                    n as int,
                );
                match r {
                    Some(p) => p.1@ == s1 && p.0 as int == v1 && s1.chunk_index <= chunks@.len(),
                    None => s1.chunk_index > chunks@.len(),
                }
            }),
    {
        let mut this = self;
        let flag = this.fast_read_flag(chunks);
        if !flag {
            // Reading anything here would desynchronize the stream.
            return this.return_if_valid(chunks, 0);
        }
        proof {
            lemma_fast_step_live(words_of(chunks@), self.state@, 128);
            lemma_fast_literal_monotone(words_of(chunks@), this.state@, n as int, 0);
        }
        let magnitude = this.fast_read_literal(chunks, n);
        proof {
            lemma_fast_batch_live(
                words_of(chunks@),
                fast_read_bit_step(words_of(chunks@), self.state@, 128).0,
                n as int,
                0,
            );
        }
        let sign = this.fast_read_flag(chunks);
        let value = if sign {
            -(magnitude as i32)
        } else {
            magnitude as i32
        };
        this.return_if_valid(chunks, value)
    }

    /// One speculative tree walk, committed only if every refill was real.
    fn read_with_tree(self, chunks: &Vec<[u8; 4]>, tree: &[TreeNode], first_node: TreeNode) -> (r:
        Option<(i8, State)>)
        requires
            chunks_ok(words_of(chunks@)),
            fast_state_ok(self.state@),
            self.state@.chunk_index <= chunks@.len() + 1,
            tree_well_formed(tree@),
            tree_indexed(tree@),
            0 <= first_node.index < tree@.len(),
            tree@[first_node.index as int] == first_node,
        ensures
            ({
                let (s1, v1) = fast_read_tree_step(
                    words_of(chunks@),
                    self.state@,
                    tree@,
                    first_node.index as int,
                );
                match r {
                    Some(p) => p.1@ == s1 && p.0 as int == v1 && s1.chunk_index <= chunks@.len(),
                    None => s1.chunk_index > chunks@.len(),
                }
            }),
    {
        let mut this = self;
        let value = this.fast_read_with_tree(chunks, tree, first_node);
        this.return_if_valid(chunks, value)
    }

    /// The speculative read of one bit: a missing chunk becomes a zero word.
    #[verifier::rlimit(50)]
    fn fast_read_bit(&mut self, chunks: &Vec<[u8; 4]>, probability: u8) -> (b: bool)
        requires
            chunks_ok(words_of(chunks@)),
            fast_state_ok(old(self).state@),
            old(self).state@.chunk_index < 0x2000_0000,
        ensures
            fast_state_ok(final(self).state@),
            (final(self).state@, b) == fast_read_bit_step(
                words_of(chunks@),
                old(self).state@,
                probability as int,
            ),
            old(self).state@.chunk_index <= final(self).state@.chunk_index <= old(
                self,
            ).state@.chunk_index + 1,
    {
        let ghost s0 = self.state@;
        proof {
            lemma_u64_clz_small(self.state.xrange);
            lemma_fast_step_live(words_of(chunks@), s0, probability as int);
        }
        let mut chunk_index = self.state.chunk_index;
        let mut value = self.state.value;
        let mut xrange = self.state.xrange;

        if xrange.leading_zeros() > 56 {
            let v = if chunk_index < chunks.len() {
                word_from_be_bytes(chunks[chunk_index])
            } else {
                0
            };
            chunk_index = chunk_index + 1;
            proof {
                assert((xrange << 32u64) | 0u64 == xrange << 32u64) by (bit_vector);
                lemma_u64_shl32_or(xrange, 0);
                lemma_u64_shl32_or(value, v as u64);
                lemma_refill_live(xrange as int, 0x1_0000_0000);
            }
            xrange = xrange << 32u64;
            value = (value << 32u64) | (v as u64);
        }
        proof {
            lemma_u64_clz_bc(xrange);
            lemma_spec_bc_bounds(xrange as int);
            lemma_range_of_bounds(xrange as int);
            lemma_xrange_decompose(xrange as int);
            lemma_bigsplit_props(xrange as int, probability as int);
        }

        let bsr = xrange.leading_zeros();
        let bit_count: u64 = (56 - bsr) as u64;
        proof {
            lemma_u64_shr_is_div(xrange, bit_count);
        }
        let range = (xrange >> bit_count) as u32;
        proof {
            lemma_split_bounds(range as int, probability as int);
            assert(pow2(8) == 256) by {
                lemma2_to64();
            }
        }
        let probability32 = probability as u32;
        let scaled = (range - 1) * probability32;
        proof {
            lemma_u32_shr_is_div(scaled, 8);
        }
        let split = 1 + (scaled >> 8u32);
        proof {
            assert(0 < pow2(bit_count as nat) <= pow2(32) < 0x2_0000_0000) by {
                if (bit_count as nat) < 32 {
                    lemma_pow2_strictly_increases(bit_count as nat, 32);
                }
                vstd::arithmetic::power2::lemma_pow2_pos(bit_count as nat);
                lemma2_to64();
                lemma2_to64_rest();
            }
            assert(split * pow2(bit_count as nat) < 0x1_0000_0000_0000_0000) by (nonlinear_arith)
                requires
                    0 <= split < 256 && 0 < pow2(bit_count as nat) < 0x2_0000_0000,
            ;
            lemma_u64_shl_is_mul(split as u64, bit_count);
        }
        let bigsplit = (split as u64) << bit_count;

        let retval = if let Some(new_value) = value.checked_sub(bigsplit) {
            xrange = xrange - bigsplit;
            value = new_value;
            true
        } else {
            xrange = bigsplit;
            false
        };

        self.state = State { chunk_index, value, xrange };
        proof {
            assert(self.state@ =~= fast_read_bit_step(
                words_of(chunks@),
                s0,
                probability as int,
            ).0);
        }
        retval
    }

    /// The speculative read of one equiprobable flag bit: the split is half
    /// the interval, computed by halving the aligned interval word directly.
    #[verifier::rlimit(50)]
    fn fast_read_flag(&mut self, chunks: &Vec<[u8; 4]>) -> (b: bool)
        requires
            chunks_ok(words_of(chunks@)),
            fast_state_ok(old(self).state@),
            old(self).state@.chunk_index < 0x2000_0000,
        ensures
            fast_state_ok(final(self).state@),
            (final(self).state@, b) == fast_read_bit_step(words_of(chunks@), old(self).state@, 128),
            old(self).state@.chunk_index <= final(self).state@.chunk_index <= old(
                self,
            ).state@.chunk_index + 1,
    {
        let ghost s0 = self.state@;
        proof {
            lemma_u64_clz_small(self.state.xrange);
            lemma_fast_step_live(words_of(chunks@), s0, 128);
        }
        let mut chunk_index = self.state.chunk_index;
        let mut value = self.state.value;
        let mut xrange = self.state.xrange;

        if xrange.leading_zeros() > 56 {
            let v = if chunk_index < chunks.len() {
                word_from_be_bytes(chunks[chunk_index])
            } else {
                0
            };
            chunk_index = chunk_index + 1;
            proof {
                assert((xrange << 32u64) | 0u64 == xrange << 32u64) by (bit_vector);
                lemma_u64_shl32_or(xrange, 0);
                lemma_u64_shl32_or(value, v as u64);
                lemma_refill_live(xrange as int, 0x1_0000_0000);
            }
            xrange = xrange << 32u64;
            value = (value << 32u64) | (v as u64);
        }
        let ghost bc = spec_bc(xrange as int) as nat;
        let ghost rg = spec_range_of(xrange as int);
        proof {
            lemma_u64_clz_bc(xrange);
            lemma_spec_bc_bounds(xrange as int);
            lemma_range_of_bounds(xrange as int);
            lemma_xrange_decompose(xrange as int);
            lemma_bigsplit_props(xrange as int, 128);
        }

        let bsr = xrange.leading_zeros();
        let bit_count: u64 = (56 - bsr) as u64;
        proof {
            vstd::arithmetic::power2::lemma_pow2_pos(bc);
            vstd::arithmetic::power2::lemma_pow2_adds(bc, 1);
            assert(pow2(1) == 2) by {
                lemma2_to64();
            }
            lemma_fundamental_div_mod(rg, 2);
            assert(xrange as int == (rg / 2) * (pow2(bc + 1) as int) + (rg % 2) * (pow2(
                bc,
            ) as int)) by (nonlinear_arith)
                requires
                    xrange as int == rg * pow2(bc) && rg == 2 * (rg / 2) + rg % 2 && pow2(bc + 1)
                        == pow2(bc) * 2,
            ;
            assert(0 <= (rg % 2) * (pow2(bc) as int) < pow2(bc + 1)) by (nonlinear_arith)
                requires
                    0 <= rg % 2 < 2 && 0 < pow2(bc) && pow2(bc + 1) == pow2(bc) * 2,
            ;
            lemma_fundamental_div_mod_converse(
                xrange as int,
                pow2(bc + 1) as int,
                rg / 2,
                (rg % 2) * (pow2(bc) as int),
            );
            lemma_u64_shr_is_div(xrange, (bit_count + 1) as u64);
        }
        let half_range = xrange >> (bit_count + 1);
        proof {
            assert(half_range == rg / 2);
            assert(0 < pow2(bc) < 0x2_0000_0000) by {
                if bc < 32 {
                    lemma_pow2_strictly_increases(bc, 32);
                }
                vstd::arithmetic::power2::lemma_pow2_pos(bc);
                lemma2_to64();
                lemma2_to64_rest();
            }
            assert((rg / 2) * pow2(bc) < 0x1_0000_0000_0000_0000) by (nonlinear_arith)
                requires
                    0 <= rg / 2 < 256 && 0 < pow2(bc) < 0x2_0000_0000,
            ;
            lemma_u64_shl_is_mul(half_range, bit_count);
        }
        let half_xrange = half_range << bit_count;
        proof {
            assert(half_xrange <= xrange) by (nonlinear_arith)
                requires
                    half_xrange as int == (rg / 2) * pow2(bc) && xrange as int == rg * pow2(bc) && 0
                        <= rg / 2 <= rg && 0 < pow2(bc),
            ;
        }
        let bigsplit = xrange - half_xrange;
        proof {
            let pb: int = pow2(bc) as int;
            assert(xrange as int == rg * pb && half_xrange as int == (rg / 2) * pb);
            assert(bigsplit as int == (rg - rg / 2) * pb) by (nonlinear_arith)
                requires
                    xrange as int == rg * pb && half_xrange as int == (rg / 2) * pb && bigsplit
                        as int == xrange as int - half_xrange as int,
            ;
            assert(rg - rg / 2 == spec_split(rg, 128)) by {
                lemma_fundamental_div_mod(rg, 2);
                assert((rg - 1) * 128 == ((rg - 1) / 2) * 256 + ((rg - 1) % 2) * 128)
                    by (nonlinear_arith)
                    requires
                        rg - 1 == 2 * ((rg - 1) / 2) + (rg - 1) % 2,
                ;
                lemma_fundamental_div_mod(rg - 1, 2);
                lemma_fundamental_div_mod_converse(
                    (rg - 1) * 128,
                    256,
                    (rg - 1) / 2,
                    ((rg - 1) % 2) * 128,
                );
            }
            assert(bigsplit as int == spec_bigsplit(xrange as int, 128));
        }

        let retval = if let Some(new_value) = value.checked_sub(bigsplit) {
            xrange = half_xrange;
            value = new_value;
            true
        } else {
            xrange = bigsplit;
            false
        };

        self.state = State { chunk_index, value, xrange };
        proof {
            assert(self.state@ =~= fast_read_bit_step(words_of(chunks@), s0, 128).0);
        }
        retval
    }

    /// The speculative read of an `n`-bit literal.
    fn fast_read_literal(&mut self, chunks: &Vec<[u8; 4]>, n: u8) -> (v: u8)
        requires
            chunks_ok(words_of(chunks@)),
            fast_state_ok(old(self).state@),
            old(self).state@.chunk_index <= chunks@.len() + 2,
        ensures
            fast_state_ok(final(self).state@),
            (final(self).state@, v as int) == fast_read_literal_step(
                words_of(chunks@),
                old(self).state@,
                n as int,
                0,
            ),
    {
        let ghost s0 = self.state@;
        let mut v = 0u8;
        let mut i: u8 = 0;
        while i < n
            invariant
                i <= n,
                chunks_ok(words_of(chunks@)),
                fast_state_ok(self.state@),
                self.state@.chunk_index <= chunks@.len() + 2 + i,
                fast_read_literal_step(words_of(chunks@), s0, n as int, 0)
                    == fast_read_literal_step(
                    words_of(chunks@),
                    self.state@,
                    n as int - i,
                    v as int,
                ),
            decreases n - i,
        {
            let b = self.fast_read_flag(chunks);
            proof {
                lemma_u8_shl1_add(v, if b {
                    1
                } else {
                    0
                });
            }
            v = (v << 1u8) + (if b {
                1u8
            } else {
                0u8
            });
            i = i + 1;
        }
        v
    }

    /// The speculative walk of a probability tree, moving from node to node
    /// by value.
    fn fast_read_with_tree(&mut self, chunks: &Vec<[u8; 4]>, tree: &[TreeNode], node: TreeNode) -> (value: i8)
        requires
            chunks_ok(words_of(chunks@)),
            fast_state_ok(old(self).state@),
            old(self).state@.chunk_index <= chunks@.len() + 1,
            tree_well_formed(tree@),
            tree_indexed(tree@),
            0 <= node.index < tree@.len(),
            tree@[node.index as int] == node,
        ensures
            fast_state_ok(final(self).state@),
            (final(self).state@, value as int) == fast_read_tree_step(
                words_of(chunks@),
                old(self).state@,
                tree@,
                node.index as int,
            ),
    {
        let ghost s0 = self.state@;
        let ghost start = node.index as int;
        let mut node = node;
        let mut leaf: i8 = 0;
        loop
            invariant_except_break
                chunks_ok(words_of(chunks@)),
                fast_state_ok(self.state@),
                tree_well_formed(tree@),
                tree_indexed(tree@),
                0 <= node.index < tree@.len(),
                tree@[node.index as int] == node,
                self.state@.chunk_index <= chunks@.len() + 2 + node.index,
                fast_read_tree_step(words_of(chunks@), s0, tree@, start) == fast_read_tree_step(
                    words_of(chunks@),
                    self.state@,
                    tree@,
                    node.index as int,
                ),
            ensures
                fast_state_ok(self.state@),
                fast_read_tree_step(words_of(chunks@), s0, tree@, start) == (
                self.state@,
                leaf as int,
                ),
            decreases tree@.len() - node.index,
        {
            let ghost s_iter = self.state@;
            let prob = node.prob;
            let b = self.fast_read_bit(chunks, prob);
            let i = if b {
                node.right
            } else {
                node.left
            };
            if (i as usize) < tree.len() {
                node = tree[i as usize];
            } else {
                leaf = TreeNode::value_from_branch(i);
                proof {
                    assert(fast_read_tree_step(words_of(chunks@), s_iter, tree@, node.index as int)
                        == (self.state@, spec_value_from_branch(i as int)));
                }
                break;
            }
        }
        leaf
    }
}

} // verus!
