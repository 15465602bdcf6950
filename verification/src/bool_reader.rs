//! The boolean decoder with an explicit bit counter: the running interval is
//! a byte-sized `range` kept in [128, 256) by renormalization, and a signed
//! counter tracks how many loaded bits are still unconsumed. Reads go through
//! a speculative fast path that assumes unlimited input and falls back to the
//! fully checked cold path at the end of the stream.

use vstd::prelude::*;

verus! {

use crate::DecodingError;
use crate::bitmath::{
    be_word,
    spec_split,
    norm_shift,
    word_from_be_bytes,
    lemma_split_bounds,
    lemma_norm_shift,
    lemma_u32_clz_norm_shift,
    lemma_u64_shl32_or,
    lemma_u64_shl8_or,
    lemma_u8_shl1_add,
};
use crate::vp8::{TreeNode, spec_value_from_branch, tree_well_formed};
use vstd::arithmetic::power2::{pow2, lemma_pow2_strictly_increases, lemma2_to64};
use vstd::bits::{lemma_u32_shl_is_mul, lemma_u32_shr_is_div, lemma_u64_shl_is_mul};

/// The sentinel that marks a reader as having run past the tolerated end of
/// its stream: distinct from every live tail-byte count.
pub const FINAL_BYTES_REMAINING_EOF: i8 = -0xE;

/// The mutable decoding position: where the next chunk comes from, the wide
/// accumulator, the interval width, and how many loaded bits remain.
#[derive(Clone, Copy)]
pub struct State {
    chunk_index: usize,
    value: u64,
    range: u32,
    bit_count: i32,
}

/// The mathematical image of a `State`.
#[verifier::ext_equal]
pub ghost struct FState {
    pub chunk_index: int,
    pub value: int,
    pub range: int,
    pub bit_count: int,
}

/// The mathematical image of a whole reader: the chunk words still to be
/// read, the position, and the tail bytes with their countdown.
#[verifier::ext_equal]
pub ghost struct ReaderModel {
    pub chunks: Seq<int>,
    pub state: FState,
    pub final_bytes: Seq<int>,
    pub final_bytes_remaining: int,
}

impl View for State {
    type V = FState;

    closed spec fn view(&self) -> FState {
        FState {
            chunk_index: self.chunk_index as int,
            value: self.value as int,
            range: self.range as int,
            bit_count: self.bit_count as int,
        }
    }
}

/// The reader has crossed the end-of-stream sentinel; every further checked
/// read must fail.
pub open spec fn past_eof(m: ReaderModel) -> bool {
    m.final_bytes_remaining == FINAL_BYTES_REMAINING_EOF as int
}

/// Every value of the model that an initialized or fresh reader can reach.
pub open spec fn model_wf(m: ReaderModel) -> bool {
    &&& 128 <= m.state.range <= 255
    &&& -8 <= m.state.bit_count <= 31
    &&& 0 <= m.state.chunk_index <= m.chunks.len()
    &&& m.chunks.len() <= 0x1000_0000
    &&& 0 <= m.state.value < 0x1_0000_0000_0000_0000
    &&& forall|i: int| 0 <= i < m.chunks.len() ==> 0 <= #[trigger] m.chunks[i] < 0x1_0000_0000
    &&& m.final_bytes.len() == 3
    &&& forall|i: int| 0 <= i < 3 ==> 0 <= #[trigger] m.final_bytes[i] < 0x100
    &&& (past_eof(m) || -1 <= m.final_bytes_remaining
        <= 3)
    &&& (past_eof(m) ==> m.state.bit_count < 0 && m.state.chunk_index == m.chunks.len())
}

/// One refill from the tail bytes: consume one real byte, or the single
/// tolerated phantom zero byte, or trip the end-of-stream sentinel.
pub open spec fn tail_refilled(m: ReaderModel) -> ReaderModel {
    if m.final_bytes_remaining > 0 {
        ReaderModel {
            state: FState {
                value: (m.value_low56()) * 0x100 + m.final_bytes[0],
                bit_count: m.state.bit_count + 8,
                ..m.state
            },
            final_bytes: seq![m.final_bytes[1], m.final_bytes[2], m.final_bytes[0]],
            final_bytes_remaining: m.final_bytes_remaining - 1,
            ..m
        }
    } else if m.final_bytes_remaining == 0 {
        ReaderModel {
            state: FState {
                value: (m.value_low56()) * 0x100,
                bit_count: m.state.bit_count + 8,
                ..m.state
            },
            final_bytes_remaining: -1,
            ..m
        }
    } else {
        ReaderModel { final_bytes_remaining: FINAL_BYTES_REMAINING_EOF as int, ..m }
    }
}

impl ReaderModel {
    /// The bits of the accumulator that survive an 8-bit shift.
    pub open spec fn value_low56(self) -> int {
        self.state.value % 0x100_0000_0000_0000
    }
}

/// One refill attempt of the checked path: pull the next whole chunk if one
/// remains, else fall back to the tail bytes.
pub open spec fn refilled(m: ReaderModel) -> ReaderModel {
    if m.state.chunk_index < m.chunks.len() {
        ReaderModel {
            state: FState {
                chunk_index: m.state.chunk_index + 1,
                value: (m.state.value % 0x1_0000_0000) * 0x1_0000_0000 + m.chunks[m.state.chunk_index],
                bit_count: m.state.bit_count + 32,
                ..m.state
            },
            ..m
        }
    } else {
        tail_refilled(m)
    }
}

/// The arithmetic decision itself, after any refill: split the interval,
/// compare, subtract, renormalize. This exact order is what makes the decoder
/// bit-exact.
pub open spec fn decode_step(s: FState, prob: int) -> (FState, bool) {
    let split = spec_split(s.range, prob);
    let bigsplit = split * pow2(s.bit_count as nat);
    let (s2, bit) = if s.value >= bigsplit {
        (FState { value: s.value - bigsplit, range: s.range - split, ..s }, true)
    } else {
        (FState { range: split, ..s }, false)
    };
    let sh = norm_shift(s2.range);
    (FState { range: s2.range * pow2(sh as nat), bit_count: s2.bit_count - sh, ..s2 }, bit)
}

/// One whole checked read: refill if the counter ran dry, fail if that
/// crossed the sentinel, otherwise decode one bit.
pub open spec fn read_bit_step(m: ReaderModel, prob: int) -> (ReaderModel, bool) {
    let m1 = if m.state.bit_count < 0 {
        refilled(m)
    } else {
        m
    };
    if past_eof(m1) {
        (m1, false)
    } else {
        let (s2, bit) = decode_step(m1.state, prob);
        (ReaderModel { state: s2, ..m1 }, bit)
    }
}

/// One speculative read against the chunk sequence alone: a missing chunk is
/// replaced by zero, but the position still advances so that the overrun can
/// be seen afterwards.
pub open spec fn fast_read_bit_step(chunks: Seq<int>, s: FState, prob: int) -> (FState, bool) {
    let s1 = if s.bit_count < 0 {
        FState {
            chunk_index: s.chunk_index + 1,
            value: (s.value % 0x1_0000_0000) * 0x1_0000_0000 + (
            if s.chunk_index < chunks.len() {
                chunks[s.chunk_index]
            } else {
                0
            }),
            bit_count: s.bit_count + 32,
            ..s
        }
    } else {
        s
    };
    decode_step(s1, prob)
}

/// A sequence of checked reads of equiprobable bits, accumulated most
/// significant bit first into a byte.
pub open spec fn read_literal_step(m: ReaderModel, n: int, acc: int) -> (ReaderModel, int)
    decreases n,
{
    if n <= 0 {
        (m, acc)
    } else {
        let (m1, b) = read_bit_step(m, 128);
        read_literal_step(m1, n - 1, (2 * acc + if b {
            1int
        } else {
            0int
        }) % 256)
    }
}

/// A magnitude of `n` bits followed by one sign bit.
pub open spec fn read_magnitude_and_sign_step(m: ReaderModel, n: int) -> (ReaderModel, int) {
    let (m1, mag) = read_literal_step(m, n, 0);
    let (m2, sign) = read_bit_step(m1, 128);
    (m2, if sign {
        -mag
    } else {
        mag
    })
}

/// A checked walk of a probability tree from `index`: read one bit with the
/// node's probability, follow the chosen branch, stop at the first target
/// outside the table and decode it as a leaf value.
pub open spec fn read_tree_step(m: ReaderModel, tree: Seq<TreeNode>, index: int) -> (
    ReaderModel,
    int,
)
    decreases tree.len() - index,
    when tree_well_formed(tree) && 0 <= index < tree.len()
{
    let node = tree[index];
    let (m1, b) = read_bit_step(m, node.prob as int);
    let t = if b {
        node.right as int
    } else {
        node.left as int
    };
    if t < tree.len() {
        read_tree_step(m1, tree, t)
    } else {
        (m1, spec_value_from_branch(t))
    }
}

/// A read result whose validity has not been checked yet. It carries no
/// error state of its own: whether the value may be trusted is recorded in
/// the reader, and must be confirmed through `BoolReader::check`.
#[must_use]
pub struct BitResult<T> {
    pub value_if_not_past_eof: T,
}

/// The zero-cost token that a chain of deferred reads threads through to the
/// final `check`.
#[must_use]
pub struct BitResultAccumulator;

impl BitResult<()> {
    /// A fresh accumulator to fold a chain of reads into.
    pub const OK: BitResultAccumulator = BitResultAccumulator;
}

impl<T> BitResult<T> {
    fn ok(value: T) -> (r: Self)
        ensures
            r.value_if_not_past_eof == value,
    {
        Self { value_if_not_past_eof: value }
    }

    /// Hands out the provisional value and folds the burden of checking it
    /// into the accumulator.
    pub fn or_accumulate(self, acc: &mut BitResultAccumulator) -> (r: T)
        ensures
            r == self.value_if_not_past_eof,
    {
        self.value_if_not_past_eof
    }
}

impl BitResult<bool> {
    fn err() -> (r: Self)
        ensures
            r.value_if_not_past_eof == false,
    {
        Self { value_if_not_past_eof: false }
    }
}

/// The boolean decoder over one compressed partition.
pub struct BoolReader {
    chunks: Vec<[u8; 4]>,
    state: State,
    final_bytes: [u8; 3],
    final_bytes_remaining: i8,
}

impl View for BoolReader {
    type V = ReaderModel;

    closed spec fn view(&self) -> ReaderModel {
        ReaderModel {
            chunks: words_of(self.chunks@),
            state: self.state@,
            final_bytes: Seq::new(3, |i: int| self.final_bytes@[i] as int),
            final_bytes_remaining: self.final_bytes_remaining as int,
        }
    }
}

impl BoolReader {
    /// The reader's invariant: every reachable reader satisfies it.
    pub open spec fn wf(&self) -> bool {
        model_wf(self@)
    }

    /// A reader with no stream at all: every checked read on it fails.
    pub fn new() -> (r: BoolReader)
        ensures
            r.wf(),
            r@ == (ReaderModel {
                chunks: Seq::<int>::empty(),
                state: FState { chunk_index: 0, value: 0, range: 255, bit_count: -8 },
                final_bytes: seq![0, 0, 0],
                final_bytes_remaining: FINAL_BYTES_REMAINING_EOF as int,
            }),
            past_eof(r@),
    {
        let state = State { chunk_index: 0, value: 0, range: 255, bit_count: -8 };
        let r = BoolReader {
            chunks: Vec::new(),
            state,
            final_bytes: [0, 0, 0],
            final_bytes_remaining: FINAL_BYTES_REMAINING_EOF,
        };
        proof {
            assert(r@.chunks =~= Seq::<int>::empty());
            assert(r@.final_bytes =~= seq![0int, 0, 0]);
            assert(r@ =~~= ReaderModel {
                chunks: Seq::<int>::empty(),
                state: FState { chunk_index: 0, value: 0, range: 255, bit_count: -8 },
                final_bytes: seq![0, 0, 0],
                final_bytes_remaining: FINAL_BYTES_REMAINING_EOF as int,
            });
        }
        r
    }

    /// Frames one partition: whole chunks plus up to three tail bytes. The
    /// declared length must match the buffer, give or take the zero padding
    /// of a final partial chunk; a non-empty declared length with no chunks
    /// at all is `NotEnoughInitData`.
    pub fn init(&mut self, buf: Vec<[u8; 4]>, len: usize) -> (res: Result<(), DecodingError>)
        requires
            buf@.len() <= 0x1000_0000,
            buf@.len() == 0 || len as int == 4 * buf@.len() || (4 * buf@.len() - 4 <= len as int
                && (len as int) < 4 * buf@.len()),
            (len as int) != 4 * buf@.len() && buf@.len() > 0 ==> forall|i: int|
                len as int - (4 * buf@.len() - 4) <= i < 4 ==> #[trigger] buf@[buf@.len() - 1]@[i]
                    == 0,
        ensures
            buf@.len() == 0 && len != 0 ==> res == Result::<(), DecodingError>::Err(
                DecodingError::NotEnoughInitData,
            ) && *final(self) == *old(self),
            !(buf@.len() == 0 && len != 0) ==> res == Result::<(), DecodingError>::Ok(())
                && final(self).wf() && final(self)@ == init_model(buf@, len as int),
    {
        let ghost words = buf@;
        let mut buf = buf;
        let mut final_bytes: [u8; 3] = [0, 0, 0];
        let final_bytes_remaining: i8;
        if len == 4 * buf.len() {
            final_bytes_remaining = 0;
        } else {
            let last_chunk = match buf.pop() {
                Some(c) => c,
                None => {
                    return Err(DecodingError::NotEnoughInitData);
                },
            };
            let len_rounded_down = 4 * buf.len();
            let num_bytes_popped = len - len_rounded_down;
            final_bytes = match num_bytes_popped {
                0 => [0, 0, 0],
                1 => [last_chunk[0], 0, 0],
                2 => [last_chunk[0], last_chunk[1], 0],
                _ => [last_chunk[0], last_chunk[1], last_chunk[2]],
            };
            final_bytes_remaining = num_bytes_popped as i8;
        }

        let state = State { chunk_index: 0, value: 0, range: 255, bit_count: -8 };
        self.chunks = buf;
        self.state = state;
        self.final_bytes = final_bytes;
        self.final_bytes_remaining = final_bytes_remaining;
        proof {
            assert(self@ =~~= init_model(words, len as int));
        }
        Ok(())
    }

    /// Confirms a chain of deferred reads: the provisional value may be
    /// trusted exactly when the reader never crossed the sentinel.
    pub fn check<T>(&self, acc: BitResultAccumulator, value_if_not_past_eof: T) -> (res: Result<
        T,
        DecodingError,
    >)
        ensures
            past_eof(self@) ==> res == Result::<T, DecodingError>::Err(
                DecodingError::BitStreamError,
            ),
            !past_eof(self@) ==> res == Result::<T, DecodingError>::Ok(value_if_not_past_eof),
    {
        if self.is_past_eof() {
            Err(DecodingError::BitStreamError)
        } else {
            Ok(value_if_not_past_eof)
        }
    }

    /// Checks one single read immediately.
    pub fn check_directly<T>(&self, result: BitResult<T>) -> (res: Result<T, DecodingError>)
        ensures
            past_eof(self@) ==> res == Result::<T, DecodingError>::Err(
                DecodingError::BitStreamError,
            ),
            !past_eof(self@) ==> res == Result::<T, DecodingError>::Ok(
                result.value_if_not_past_eof,
            ),
    {
        let mut acc = BitResult::OK;
        let value = result.or_accumulate(&mut acc);
        self.check(acc, value)
    }

    /// Re-wraps a value whose check is still pending.
    fn accumulated<T>(&self, acc: BitResultAccumulator, value_if_not_past_eof: T) -> (r: BitResult<
        T,
    >)
        ensures
            r.value_if_not_past_eof == value_if_not_past_eof,
    {
        BitResult::ok(value_if_not_past_eof)
    }

    /// Refills from the tail bytes: one real byte while any remain, then the
    /// single tolerated phantom zero byte, then the sentinel.
    fn load_final_bytes(&mut self)
        requires
            old(self).wf(),
            old(self)@.state.bit_count < 0,
            old(self)@.state.chunk_index == old(self)@.chunks.len(),
        ensures
            final(self).wf(),
            final(self)@ == tail_refilled(old(self)@),
    {
        if self.final_bytes_remaining > 0 {
            self.final_bytes_remaining = self.final_bytes_remaining - 1;
            let byte = self.final_bytes[0];
            self.final_bytes = [self.final_bytes[1], self.final_bytes[2], self.final_bytes[0]];
            proof {
                lemma_u64_shl8_or(self.state.value, byte as u64);
            }
            self.state.value = (self.state.value << 8u64) | (byte as u64);
            self.state.bit_count = self.state.bit_count + 8;
            proof {
                assert(self@ =~~= tail_refilled(old(self)@));
            }
        } else if self.final_bytes_remaining == 0 {
            self.final_bytes_remaining = -1;
            proof {
                let v = self.state.value;
                assert((v << 8u64) | 0u64 == (v << 8u64)) by (bit_vector);
                lemma_u64_shl8_or(v, 0);
            }
            self.state.value = self.state.value << 8u64;
            self.state.bit_count = self.state.bit_count + 8;
            proof {
                assert(self.state.value as int == (old(self)@.value_low56()) * 0x100 + 0);
                assert(self@ =~~= tail_refilled(old(self)@));
            }
        } else {
            self.final_bytes_remaining = FINAL_BYTES_REMAINING_EOF;
            proof {
                assert(self@ =~~= tail_refilled(old(self)@));
            }
        }
    }

    /// Whether the reader has crossed the end-of-stream sentinel.
    fn is_past_eof(&self) -> (r: bool)
        ensures
            r == past_eof(self@),
    {
        self.final_bytes_remaining == FINAL_BYTES_REMAINING_EOF
    }

    /// The fully checked read of one bit.
    #[verifier::rlimit(30)]
    fn cold_read_bit(&mut self, probability: u32) -> (res: BitResult<bool>)
        requires
            old(self).wf(),
            probability <= 255,
        ensures
            final(self).wf(),
            final(self)@ == read_bit_step(old(self)@, probability as int).0,
            res.value_if_not_past_eof == read_bit_step(old(self)@, probability as int).1,
    {
        let ghost m0 = self@;
        if self.state.bit_count < 0 {
            if self.state.chunk_index < self.chunks.len() {
                let chunk = self.chunks[self.state.chunk_index];
                let v = word_from_be_bytes(chunk);
                self.state.chunk_index = self.state.chunk_index + 1;
                proof {
                    lemma_u64_shl32_or(self.state.value, v as u64);
                }
                self.state.value = (self.state.value << 32u64) | (v as u64);
                self.state.bit_count = self.state.bit_count + 32;
                proof {
                    assert(self@ =~~= refilled(m0));
                }
            } else {
                self.load_final_bytes();
                proof {
                    assert(self@ =~~= refilled(m0));
                }
                if self.is_past_eof() {
                    proof {
                        assert(self@ =~~= read_bit_step(m0, probability as int).0);
                    }
                    return BitResult::err();
                }
            }
        }
        let ghost m1 = self@;
        proof {
            assert(m1 == if m0.state.bit_count < 0 {
                refilled(m0)
            } else {
                m0
            });
            lemma_split_bounds(self.state.range as int, probability as int);
            assert(pow2(8) == 256) by {
                lemma2_to64();
            }
        }
        let scaled = (self.state.range - 1) * probability;
        proof {
            lemma_u32_shr_is_div(scaled, 8);
        }
        let split = 1 + (scaled >> 8u32);
        proof {
            assert(split == spec_split(m1.state.range, probability as int));
            assert(0 <= self.state.bit_count <= 31);
            assert(0 < pow2(self.state.bit_count as nat) <= pow2(31) < 0x1_0000_0000) by {
                if (self.state.bit_count as nat) < 31 {
                    lemma_pow2_strictly_increases(self.state.bit_count as nat, 31);
                }
                vstd::arithmetic::power2::lemma_pow2_pos(self.state.bit_count as nat);
                lemma2_to64();
            }
            assert(split * pow2(self.state.bit_count as nat) < 0x1_0000_0000_0000_0000)
                by (nonlinear_arith)
                requires
                    0 <= split < 256 && 0 < pow2(self.state.bit_count as nat) < 0x1_0000_0000,
            ;
            lemma_u64_shl_is_mul(split as u64, self.state.bit_count as u64);
        }
        let bigsplit = (split as u64) << (self.state.bit_count as u64);

        let retval = if let Some(new_value) = self.state.value.checked_sub(bigsplit) {
            self.state.range = self.state.range - split;
            self.state.value = new_value;
            true
        } else {
            self.state.range = split;
            false
        };
        proof {
            lemma_u32_clz_norm_shift(self.state.range);
            lemma_norm_shift(self.state.range as int);
        }

        let shift = self.state.range.leading_zeros().saturating_sub(24);
        proof {
            lemma_u32_shl_is_mul(self.state.range, shift);
        }
        self.state.range = self.state.range << shift;
        self.state.bit_count = self.state.bit_count - shift as i32;
        proof {
            assert(self@ =~~= read_bit_step(m0, probability as int).0);
        }
        BitResult::ok(retval)
    }
}

/// The disposable copy of the decoding position that the speculative fast
/// path works on: it is only committed back into the reader when the batch
/// stayed within the real chunks.
pub struct FastReader {
    uncommitted_state: State,
}

impl BoolReader {
    /// Starts a speculative batch on a disposable copy of the position.
    fn fast(&self) -> (r: FastReader)
        ensures
            r.uncommitted_state@ == self@.state,
    {
        FastReader { uncommitted_state: self.state }
    }

    /// Reads one bit with the given probability: speculatively when far from
    /// the end of the stream, through the checked path otherwise. Both paths
    /// are the same `read_bit_step`.
    pub fn read_bool(&mut self, probability: u8) -> (res: BitResult<bool>)
        requires
            old(self).wf(),
        ensures
            final(self).wf(),
            final(self)@ == read_bit_step(old(self)@, probability as int).0,
            res.value_if_not_past_eof == read_bit_step(old(self)@, probability as int).1,
    {
        let probability = probability as u32;

        match self.fast().read_bit(&self.chunks, probability) {
            Some((b, st)) => {
                proof {
                    lemma_fast_step_agrees(self@, probability as int);
                    lemma_step_wf(self@, probability as int);
                }
                self.state = st;
                proof {
                    assert(self@ =~~= read_bit_step(old(self)@, probability as int).0);
                }
                BitResult::ok(b)
            },
            None => self.cold_read_bool(probability),
        }
    }

    /// The checked read of one bit.
    fn cold_read_bool(&mut self, probability: u32) -> (res: BitResult<bool>)
        requires
            old(self).wf(),
            probability <= 255,
        ensures
            final(self).wf(),
            final(self)@ == read_bit_step(old(self)@, probability as int).0,
            res.value_if_not_past_eof == read_bit_step(old(self)@, probability as int).1,
    {
        self.cold_read_bit(probability)
    }

    /// Reads one equiprobable flag bit.
    pub fn read_flag(&mut self) -> (res: BitResult<bool>)
        requires
            old(self).wf(),
        ensures
            final(self).wf(),
            final(self)@ == read_bit_step(old(self)@, 128).0,
            res.value_if_not_past_eof == read_bit_step(old(self)@, 128).1,
    {
        self.read_bool(128)
    }

    /// Reads an `n`-bit unsigned literal, most significant bit first.
    pub fn read_literal(&mut self, n: u8) -> (res: BitResult<u8>)
        requires
            old(self).wf(),
        ensures
            final(self).wf(),
            final(self)@ == read_literal_step(old(self)@, n as int, 0).0,
            res.value_if_not_past_eof as int == read_literal_step(old(self)@, n as int, 0).1,
    {
        match self.fast().read_literal(&self.chunks, n) {
            Some((v, st)) => {
                proof {
                    lemma_fast_literal_agrees(self@, n as int, 0);
                    lemma_literal_wf(self@, n as int, 0);
                }
                self.state = st;
                proof {
                    assert(self@ =~~= read_literal_step(old(self)@, n as int, 0).0);
                }
                BitResult::ok(v)
            },
            None => self.cold_read_literal(n),
        }
    }

    /// The checked read of an `n`-bit literal.
    fn cold_read_literal(&mut self, n: u8) -> (res: BitResult<u8>)
        requires
            old(self).wf(),
        ensures
            final(self).wf(),
            final(self)@ == read_literal_step(old(self)@, n as int, 0).0,
            res.value_if_not_past_eof as int == read_literal_step(old(self)@, n as int, 0).1,
    {
        let ghost m0 = self@;
        let mut v = 0u8;
        let mut res = BitResult::OK;

        let mut i: u8 = 0;
        while i < n
            invariant
                i <= n,
                self.wf(),
                read_literal_step(m0, n as int, 0) == read_literal_step(
                    self@,
                    n as int - i,
                    v as int,
                ),
            decreases n - i,
        {
            let b = self.cold_read_bit(128).or_accumulate(&mut res);
            proof {
                lemma_u8_shl1_add(v, if b {
                    1
                } else {
                    0
                });
            }
            v = (v << 1u8) + (if b {
                1u8
            } else {
                0u8
            });
            i = i + 1;
        }

        self.accumulated(res, v)
    }

    /// Reads an `n`-bit magnitude and a sign bit; the flag that decides
    /// whether to read at all stays with the caller.
    pub fn read_magnitude_and_sign(&mut self, n: u8) -> (res: BitResult<i32>)
        requires
            old(self).wf(),
        ensures
            final(self).wf(),
            final(self)@ == read_magnitude_and_sign_step(old(self)@, n as int).0,
            res.value_if_not_past_eof as int == read_magnitude_and_sign_step(old(self)@, n as int).1,
    {
        match self.fast().read_magnitude_and_sign(&self.chunks, n) {
            Some((v, st)) => {
                proof {
                    lemma_fast_magnitude_agrees(self@, n as int);
                    lemma_literal_wf(self@, n as int, 0);
                    lemma_step_wf(read_literal_step(self@, n as int, 0).0, 128);
                }
                self.state = st;
                proof {
                    assert(self@ =~~= read_magnitude_and_sign_step(old(self)@, n as int).0);
                }
                BitResult::ok(v)
            },
            None => self.cold_read_magnitude_and_sign(n),
        }
    }

    /// The checked read of a magnitude and sign.
    fn cold_read_magnitude_and_sign(&mut self, n: u8) -> (res: BitResult<i32>)
        requires
            old(self).wf(),
        ensures
            final(self).wf(),
            final(self)@ == read_magnitude_and_sign_step(old(self)@, n as int).0,
            res.value_if_not_past_eof as int == read_magnitude_and_sign_step(old(self)@, n as int).1,
    {
        let mut res = BitResult::OK;
        let magnitude = self.cold_read_literal(n).or_accumulate(&mut res);
        let sign = self.cold_read_bool(128).or_accumulate(&mut res);

        let value = if sign {
            -(magnitude as i32)
        } else {
            magnitude as i32
        };
        self.accumulated(res, value)
    }

    /// Walks a probability tree, starting at node one instead of node zero
    /// when the caller's context pre-determines the first decision.
    pub fn read_with_tree(&mut self, tree: &[TreeNode], skip: bool) -> (res: BitResult<i8>)
        requires
            old(self).wf(),
            tree_well_formed(tree@),
            (if skip {
                1int
            } else {
                0int
            }) < tree@.len(),
        ensures
            final(self).wf(),
            final(self)@ == read_tree_step(
                old(self)@,
                tree@,
                if skip {
                    1int
                } else {
                    0int
                },
            ).0,
            res.value_if_not_past_eof as int == read_tree_step(
                old(self)@,
                tree@,
                if skip {
                    1int
                } else {
                    0int
                },
            ).1,
    {
        let ghost start = if skip {
            1int
        } else {
            0int
        };
        match self.fast().read_with_tree(&self.chunks, tree, skip) {
            Some((v, st)) => {
                proof {
                    lemma_fast_tree_agrees(self@, tree@, start);
                    lemma_tree_wf(self@, tree@, start);
                }
                self.state = st;
                proof {
                    assert(self@ =~~= read_tree_step(old(self)@, tree@, start).0);
                }
                BitResult::ok(v)
            },
            None => self.cold_read_with_tree(tree, skip),
        }
    }

    /// The checked walk of a probability tree.
    fn cold_read_with_tree(&mut self, tree: &[TreeNode], skip: bool) -> (res: BitResult<i8>)
        requires
            old(self).wf(),
            tree_well_formed(tree@),
            (if skip {
                1int
            } else {
                0int
            }) < tree@.len(),
        ensures
            final(self).wf(),
            final(self)@ == read_tree_step(
                old(self)@,
                tree@,
                if skip {
                    1int
                } else {
                    0int
                },
            ).0,
            res.value_if_not_past_eof as int == read_tree_step(
                old(self)@,
                tree@,
                if skip {
                    1int
                } else {
                    0int
                },
            ).1,
    {
        let ghost m0 = self@;
        let ghost start = if skip {
            1int
        } else {
            0int
        };
        let mut index: usize = if skip {
            1
        } else {
            0
        };
        let mut res = BitResult::OK;
        let mut leaf: i8 = 0;

        loop
            invariant_except_break
                self.wf(),
                tree_well_formed(tree@),
                0 <= index < tree@.len(),
                read_tree_step(m0, tree@, start) == read_tree_step(self@, tree@, index as int),
            ensures
                self.wf(),
                read_tree_step(m0, tree@, start) == (self@, leaf as int),
            decreases tree@.len() - index,
        {
            let ghost m_iter = self@;
            let node = tree[index];
            let prob = node.prob as u32;
            let b = self.cold_read_bit(prob).or_accumulate(&mut res);
            let t = if b {
                node.right
            } else {
                node.left
            };
            let new_index = t as usize;
            if new_index < tree.len() {
                index = new_index;
            } else {
                leaf = TreeNode::value_from_branch(t);
                proof {
                    assert(read_tree_step(m_iter, tree@, index as int) == (
                    self@,
                    spec_value_from_branch(t as int),
                    ));
                }
                break;
            }
        }
        self.accumulated(res, leaf)
    }
}

impl FastReader {
    /// Commits the speculative batch if it never ran past the real chunks;
    /// a batch that ended on or past the last chunk is discarded and redone
    /// through the checked path.
    fn commit_if_valid<T>(
        self,
        chunks: &Vec<[u8; 4]>,
        acc: BitResultAccumulator,
        value_if_not_past_eof: T,
    ) -> (r: Option<(T, State)>)
        ensures
            match r {
                Some(p) => self.uncommitted_state@.chunk_index < chunks@.len() && p.0
                    == value_if_not_past_eof && p.1 == self.uncommitted_state,
                None => self.uncommitted_state@.chunk_index >= chunks@.len(),
            },
    {
        if self.uncommitted_state.chunk_index < chunks.len() {
            Some((value_if_not_past_eof, self.uncommitted_state))
        } else {
            None
        }
    }

    /// One speculative bit, committed only if it stayed within the chunks.
    fn read_bit(self, chunks: &Vec<[u8; 4]>, probability: u32) -> (r: Option<(bool, State)>)
        requires
            chunks_ok(words_of(chunks@)),
            fast_state_ok(self.uncommitted_state@),
            self.uncommitted_state@.chunk_index <= chunks@.len(),
            probability <= 255,
        ensures
            ({
                let (s1, b1) = fast_read_bit_step(
                    words_of(chunks@),
                    self.uncommitted_state@,
                    probability as int,
                );
                match r {
                    Some(p) => p.1@ == s1 && p.0 == b1 && s1.chunk_index < chunks@.len(),
                    None => s1.chunk_index >= chunks@.len(),
                }
            }),
    {
        let mut this = self;
        let mut res = BitResult::OK;
        let b = this.fast_read_bit(chunks, probability, &mut res);
        this.commit_if_valid(chunks, res, b)
    }

    /// One speculative literal, committed only if it stayed within the
    /// chunks.
    fn read_literal(self, chunks: &Vec<[u8; 4]>, n: u8) -> (r: Option<(u8, State)>)
        requires
            chunks_ok(words_of(chunks@)),
            fast_state_ok(self.uncommitted_state@),
            self.uncommitted_state@.chunk_index <= chunks@.len(),
        ensures
            ({
                let (s1, v1) = fast_read_literal_step(
                    words_of(chunks@),
                    self.uncommitted_state@,
                    n as int,
                    0,
                );
                match r {
                    Some(p) => p.1@ == s1 && p.0 as int == v1 && s1.chunk_index < chunks@.len(),
                    None => s1.chunk_index >= chunks@.len(),
                }
            }),
    {
        let mut this = self;
        let mut res = BitResult::OK;
        let b = this.fast_read_literal(chunks, n, &mut res);
        this.commit_if_valid(chunks, res, b)
    }

    /// One speculative magnitude-and-sign read, committed only if it stayed
    /// within the chunks.
    fn read_magnitude_and_sign(self, chunks: &Vec<[u8; 4]>, n: u8) -> (r: Option<(i32, State)>)
        requires
            chunks_ok(words_of(chunks@)),
            fast_state_ok(self.uncommitted_state@),
            self.uncommitted_state@.chunk_index <= chunks@.len(),
        ensures
            ({
                let (s1, v1) = fast_read_magnitude_and_sign_step(
                    words_of(chunks@),
                    self.uncommitted_state@,
                    n as int,
                );
                match r {
                    Some(p) => p.1@ == s1 && p.0 as int == v1 && s1.chunk_index < chunks@.len(),
                    None => s1.chunk_index >= chunks@.len(),
                }
            }),
    {
        let mut this = self;
        let mut res = BitResult::OK;
        let b = this.fast_read_magnitude_and_sign(chunks, n, &mut res);
        this.commit_if_valid(chunks, res, b)
    }

    /// One speculative tree walk, committed only if it stayed within the
    /// chunks.
    fn read_with_tree(
        self,
        chunks: &Vec<[u8; 4]>,
        tree: &[TreeNode],
        skip: bool,
    ) -> (r: Option<(i8, State)>)
        requires
            chunks_ok(words_of(chunks@)),
            fast_state_ok(self.uncommitted_state@),
            self.uncommitted_state@.chunk_index <= chunks@.len(),
            tree_well_formed(tree@),
            (if skip {
                1int
            } else {
                0int
            }) < tree@.len(),
        ensures
            ({
                let (s1, v1) = fast_read_tree_step(
                    words_of(chunks@),
                    self.uncommitted_state@,
                    tree@,
                    if skip {
                        1int
                    } else {
                        0int
                    },
                );
                match r {
                    Some(p) => p.1@ == s1 && p.0 as int == v1 && s1.chunk_index < chunks@.len(),
                    None => s1.chunk_index >= chunks@.len(),
                }
            }),
    {
        let mut this = self;
        let mut res = BitResult::OK;
        let b = this.fast_read_with_tree(chunks, tree, skip, &mut res);
        this.commit_if_valid(chunks, res, b)
    }

    /// The speculative read of one bit: a missing chunk becomes a zero word,
    /// and only the advancing chunk position records that it happened.
    #[verifier::rlimit(30)]
    fn fast_read_bit(
        &mut self,
        chunks: &Vec<[u8; 4]>,
        probability: u32,
        acc: &mut BitResultAccumulator,
    ) -> (b: bool)
        requires
            chunks_ok(words_of(chunks@)),
            fast_state_ok(old(self).uncommitted_state@),
            old(self).uncommitted_state@.chunk_index < 0x2000_0000,
            probability <= 255,
        ensures
            fast_state_ok(final(self).uncommitted_state@),
            (final(self).uncommitted_state@, b) == fast_read_bit_step(
                words_of(chunks@),
                old(self).uncommitted_state@,
                probability as int,
            ),
            old(self).uncommitted_state@.chunk_index <= final(self).uncommitted_state@.chunk_index
                <= old(self).uncommitted_state@.chunk_index + 1,
    {
        let ghost s0 = self.uncommitted_state@;
        let mut chunk_index = self.uncommitted_state.chunk_index;
        let mut value = self.uncommitted_state.value;
        let mut range = self.uncommitted_state.range;
        let mut bit_count = self.uncommitted_state.bit_count;

        if bit_count < 0 {
            let v = if chunk_index < chunks.len() {
                word_from_be_bytes(chunks[chunk_index])
            } else {
                0
            };
            chunk_index = chunk_index + 1;
            proof {
                lemma_u64_shl32_or(value, v as u64);
            }
            value = (value << 32u64) | (v as u64);
            bit_count = bit_count + 32;
        }

        proof {
            lemma_split_bounds(range as int, probability as int);
            assert(pow2(8) == 256) by {
                lemma2_to64();
            }
        }
        let scaled = (range - 1) * probability;
        proof {
            lemma_u32_shr_is_div(scaled, 8);
        }
        let split = 1 + (scaled >> 8u32);
        proof {
            assert(0 < pow2(bit_count as nat) <= pow2(31) < 0x1_0000_0000) by {
                if (bit_count as nat) < 31 {
                    lemma_pow2_strictly_increases(bit_count as nat, 31);
                }
                vstd::arithmetic::power2::lemma_pow2_pos(bit_count as nat);
                lemma2_to64();
            }
            assert(split * pow2(bit_count as nat) < 0x1_0000_0000_0000_0000) by (nonlinear_arith)
                requires
                    0 <= split < 256 && 0 < pow2(bit_count as nat) < 0x1_0000_0000,
            ;
            lemma_u64_shl_is_mul(split as u64, bit_count as u64);
        }
        let bigsplit = (split as u64) << (bit_count as u64);

        let retval = if let Some(new_value) = value.checked_sub(bigsplit) {
            range = range - split;
            value = new_value;
            true
        } else {
            range = split;
            false
        };
        proof {
            lemma_u32_clz_norm_shift(range);
            lemma_norm_shift(range as int);
        }

        let shift = range.leading_zeros().saturating_sub(24);
        proof {
            lemma_u32_shl_is_mul(range, shift);
        }
        range = range << shift;
        bit_count = bit_count - shift as i32;

        self.uncommitted_state = State { chunk_index, value, range, bit_count };
        proof {
            assert(self.uncommitted_state@ =~= fast_read_bit_step(
                words_of(chunks@),
                s0,
                probability as int,
            ).0);
        }
        retval
    }

    /// The speculative read of an `n`-bit literal.
    fn fast_read_literal(
        &mut self,
        chunks: &Vec<[u8; 4]>,
        n: u8,
        acc: &mut BitResultAccumulator,
    ) -> (v: u8)
        requires
            chunks_ok(words_of(chunks@)),
            fast_state_ok(old(self).uncommitted_state@),
            old(self).uncommitted_state@.chunk_index <= chunks@.len(),
        ensures
            fast_state_ok(final(self).uncommitted_state@),
            (final(self).uncommitted_state@, v as int) == fast_read_literal_step(
                words_of(chunks@),
                old(self).uncommitted_state@,
                n as int,
                0,
            ),
    {
        let ghost s0 = self.uncommitted_state@;
        let mut v = 0u8;
        let mut i: u8 = 0;
        while i < n
            invariant
                i <= n,
                chunks_ok(words_of(chunks@)),
                fast_state_ok(self.uncommitted_state@),
                self.uncommitted_state@.chunk_index <= chunks@.len() + i,
                fast_read_literal_step(words_of(chunks@), s0, n as int, 0)
                    == fast_read_literal_step(
                    words_of(chunks@),
                    self.uncommitted_state@,
                    n as int - i,
                    v as int,
                ),
            decreases n - i,
        {
            let b = self.fast_read_bit(chunks, 128, acc);
            proof {
                lemma_u8_shl1_add(v, if b {
                    1
                } else {
                    0
                });
            }
            v = (v << 1u8) + (if b {
                1u8
            } else {
                0u8
            });
            i = i + 1;
        }
        v
    }

    /// The speculative read of a magnitude and sign.
    fn fast_read_magnitude_and_sign(
        &mut self,
        chunks: &Vec<[u8; 4]>,
        n: u8,
        acc: &mut BitResultAccumulator,
    ) -> (value: i32)
        requires
            chunks_ok(words_of(chunks@)),
            fast_state_ok(old(self).uncommitted_state@),
            old(self).uncommitted_state@.chunk_index <= chunks@.len(),
        ensures
            fast_state_ok(final(self).uncommitted_state@),
            (final(self).uncommitted_state@, value as int) == fast_read_magnitude_and_sign_step(
                words_of(chunks@),
                old(self).uncommitted_state@,
                n as int,
            ),
    {
        proof {
            lemma_fast_literal_monotone(words_of(chunks@), self.uncommitted_state@, n as int, 0);
        }
        let magnitude = self.fast_read_literal(chunks, n, acc);
        let sign = self.fast_read_bit(chunks, 128, acc);
        if sign {
            -(magnitude as i32)
        } else {
            magnitude as i32
        }
    }

    /// The speculative walk of a probability tree.
    fn fast_read_with_tree(
        &mut self,
        chunks: &Vec<[u8; 4]>,
        tree: &[TreeNode],
        skip: bool,
        acc: &mut BitResultAccumulator,
    ) -> (value: i8)
        requires
            chunks_ok(words_of(chunks@)),
            fast_state_ok(old(self).uncommitted_state@),
            old(self).uncommitted_state@.chunk_index <= chunks@.len(),
            tree_well_formed(tree@),
            (if skip {
                1int
            } else {
                0int
            }) < tree@.len(),
        ensures
            fast_state_ok(final(self).uncommitted_state@),
            (final(self).uncommitted_state@, value as int) == fast_read_tree_step(
                words_of(chunks@),
                old(self).uncommitted_state@,
                tree@,
                if skip {
                    1int
                } else {
                    0int
                },
            ),
    {
        let ghost s0 = self.uncommitted_state@;
        let ghost start = if skip {
            1int
        } else {
            0int
        };
        let mut i: u8 = if skip {
            1
        } else {
            0
        };
        let mut leaf: i8 = 0;
        loop
            invariant_except_break
                chunks_ok(words_of(chunks@)),
                fast_state_ok(self.uncommitted_state@),
                tree_well_formed(tree@),
                0 <= i < tree@.len(),
                self.uncommitted_state@.chunk_index <= chunks@.len() + i + 1,
                fast_read_tree_step(words_of(chunks@), s0, tree@, start) == fast_read_tree_step(
                    words_of(chunks@),
                    self.uncommitted_state@,
                    tree@,
                    i as int,
                ),
            ensures
                fast_state_ok(self.uncommitted_state@),
                fast_read_tree_step(words_of(chunks@), s0, tree@, start) == (
                self.uncommitted_state@,
                leaf as int,
                ),
            decreases tree@.len() - i,
        {
            let ghost s_iter = self.uncommitted_state@;
            let node = tree[i as usize];
            let prob = node.prob as u32;
            let b = self.fast_read_bit(chunks, prob, acc);
            let t = if b {
                node.right
            } else {
                node.left
            };
            if (t as usize) < tree.len() {
                i = t;
            } else {
                leaf = TreeNode::value_from_branch(t);
                proof {
                    assert(fast_read_tree_step(words_of(chunks@), s_iter, tree@, i as int) == (
                    self.uncommitted_state@,
                    spec_value_from_branch(t as int),
                    ));
                }
                break;
            }
        }
        leaf
    }
}

/// The chunk words that a buffer of 4-byte chunks spells, big-endian.
pub open spec fn words_of(ws: Seq<[u8; 4]>) -> Seq<int> {
    Seq::new(ws.len(), |i: int| be_word(ws[i]@))
}

/// A sequence of speculative reads of equiprobable bits, accumulated most
/// significant bit first into a byte.
pub open spec fn fast_read_literal_step(chunks: Seq<int>, s: FState, n: int, acc: int) -> (
    FState,
    int,
)
    decreases n,
{
    if n <= 0 {
        (s, acc)
    } else {
        let (s1, b) = fast_read_bit_step(chunks, s, 128);
        fast_read_literal_step(chunks, s1, n - 1, (2 * acc + if b {
            1int
        } else {
            0int
        }) % 256)
    }
}

/// A speculative magnitude of `n` bits followed by one sign bit.
pub open spec fn fast_read_magnitude_and_sign_step(chunks: Seq<int>, s: FState, n: int) -> (
    FState,
    int,
) {
    let (s1, mag) = fast_read_literal_step(chunks, s, n, 0);
    let (s2, sign) = fast_read_bit_step(chunks, s1, 128);
    (s2, if sign {
        -mag
    } else {
        mag
    })
}

/// A speculative walk of a probability tree from `index`.
pub open spec fn fast_read_tree_step(chunks: Seq<int>, s: FState, tree: Seq<TreeNode>, index: int) -> (
    FState,
    int,
)
    decreases tree.len() - index,
    when tree_well_formed(tree) && 0 <= index < tree.len()
{
    let node = tree[index];
    let (s1, b) = fast_read_bit_step(chunks, s, node.prob as int);
    let t = if b {
        node.right as int
    } else {
        node.left as int
    };
    if t < tree.len() {
        fast_read_tree_step(chunks, s1, tree, t)
    } else {
        (s1, spec_value_from_branch(t))
    }
}

/// The state invariant that the speculative path maintains on its own.
pub open spec fn fast_state_ok(s: FState) -> bool {
    &&& 128 <= s.range <= 255
    &&& -8 <= s.bit_count <= 31
    &&& 0 <= s.value < 0x1_0000_0000_0000_0000
    &&& 0 <= s.chunk_index
}

/// What the speculative path relies on of the chunk words.
pub open spec fn chunks_ok(chunks: Seq<int>) -> bool {
    &&& chunks.len() <= 0x1000_0000
    &&& forall|i: int| 0 <= i < chunks.len() ==> 0 <= #[trigger] chunks[i] < 0x1_0000_0000
}

/// A checked read preserves the model invariant.
pub proof fn lemma_step_wf(m: ReaderModel, prob: int)
    requires
        model_wf(m),
        0 <= prob <= 255,
    ensures
        model_wf(read_bit_step(m, prob).0),
{
    let m1 = if m.state.bit_count < 0 {
        refilled(m)
    } else {
        m
    };
    assert(model_wf(m1) || past_eof(m1));
    if !past_eof(m1) {
        lemma_split_bounds(m1.state.range, prob);
        let split = spec_split(m1.state.range, prob);
        vstd::arithmetic::power2::lemma_pow2_pos(m1.state.bit_count as nat);
        let s2 = if m1.state.value >= split * pow2(m1.state.bit_count as nat) {
            FState {
                value: m1.state.value - split * pow2(m1.state.bit_count as nat),
                range: m1.state.range - split,
                ..m1.state
            }
        } else {
            FState { range: split, ..m1.state }
        };
        assert(0 <= split * pow2(m1.state.bit_count as nat)) by (nonlinear_arith)
            requires
                0 <= split && 0 < pow2(m1.state.bit_count as nat),
        ;
        lemma_norm_shift(s2.range);
    }
}

/// The speculative step never moves the chunk position backwards, and at
/// most one chunk forward.
pub proof fn lemma_fast_step_bounds(chunks: Seq<int>, s: FState, prob: int)
    ensures
        s.chunk_index <= fast_read_bit_step(chunks, s, prob).0.chunk_index <= s.chunk_index + 1,
{
}

/// The heart of the fast/slow equivalence: when a speculative read ends
/// within the real chunks, it agrees exactly with the checked read.
pub proof fn lemma_fast_step_agrees(m: ReaderModel, prob: int)
    requires
        model_wf(m),
        0 <= prob <= 255,
    ensures
        ({
            let (s1, b) = fast_read_bit_step(m.chunks, m.state, prob);
            s1.chunk_index <= m.chunks.len() ==> read_bit_step(m, prob) == (
            ReaderModel { state: s1, ..m },
            b,
            )
        }),
{
    let (s1, b) = fast_read_bit_step(m.chunks, m.state, prob);
    if s1.chunk_index <= m.chunks.len() {
        if m.state.bit_count < 0 {
            assert(m.state.chunk_index < m.chunks.len());
            assert(!past_eof(m));
            assert(refilled(m).state == fast_refill_state(m.chunks, m.state)) by {
                assert(refilled(m).state =~= fast_refill_state(m.chunks, m.state));
            }
        } else {
            assert(!past_eof(m));
        }
        assert(read_bit_step(m, prob) =~~= (ReaderModel { state: s1, ..m }, b));
    }
}

/// The refill half of the speculative step, named so the equivalence proof
/// can speak about it.
pub open spec fn fast_refill_state(chunks: Seq<int>, s: FState) -> FState {
    FState {
        chunk_index: s.chunk_index + 1,
        value: (s.value % 0x1_0000_0000) * 0x1_0000_0000 + (
        if s.chunk_index < chunks.len() {
            chunks[s.chunk_index]
        } else {
            0
        }),
        bit_count: s.bit_count + 32,
        ..s
    }
}

/// A speculative literal never moves the chunk position backwards.
pub proof fn lemma_fast_literal_monotone(chunks: Seq<int>, s: FState, n: int, acc: int)
    ensures
        fast_read_literal_step(chunks, s, n, acc).0.chunk_index >= s.chunk_index,
        fast_read_literal_step(chunks, s, n, acc).0.chunk_index <= s.chunk_index + (if n >= 0 {
            n
        } else {
            0int
        }),
    decreases n,
{
    if n > 0 {
        let (s1, b) = fast_read_bit_step(chunks, s, 128);
        lemma_fast_step_bounds(chunks, s, 128);
        lemma_fast_literal_monotone(chunks, s1, n - 1, (2 * acc + if b {
            1int
        } else {
            0int
        }) % 256);
    }
}

/// Fast/slow equivalence for a whole literal: if the speculative batch ends
/// within the real chunks, it agrees with the checked batch.
pub proof fn lemma_fast_literal_agrees(m: ReaderModel, n: int, acc: int)
    requires
        model_wf(m),
    ensures
        ({
            let (s1, v1) = fast_read_literal_step(m.chunks, m.state, n, acc);
            s1.chunk_index <= m.chunks.len() ==> read_literal_step(m, n, acc) == (
            ReaderModel { state: s1, ..m },
            v1,
            )
        }),
    decreases n,
{
    let (s1, v1) = fast_read_literal_step(m.chunks, m.state, n, acc);
    if s1.chunk_index <= m.chunks.len() {
        if n <= 0 {
            assert(ReaderModel { state: s1, ..m } =~~= m);
        } else {
            let (sf, b) = fast_read_bit_step(m.chunks, m.state, 128);
            let acc1 = (2 * acc + if b {
                1int
            } else {
                0int
            }) % 256;
            lemma_fast_literal_monotone(m.chunks, sf, n - 1, acc1);
            assert(sf.chunk_index <= m.chunks.len());
            lemma_fast_step_agrees(m, 128);
            lemma_step_wf(m, 128);
            let mf = ReaderModel { state: sf, ..m };
            assert(mf == read_bit_step(m, 128).0);
            lemma_fast_literal_agrees(mf, n - 1, acc1);
        }
    }
}

/// A checked literal preserves the model invariant.
pub proof fn lemma_literal_wf(m: ReaderModel, n: int, acc: int)
    requires
        model_wf(m),
    ensures
        model_wf(read_literal_step(m, n, acc).0),
    decreases n,
{
    if n > 0 {
        let (m1, b) = read_bit_step(m, 128);
        lemma_step_wf(m, 128);
        lemma_literal_wf(m1, n - 1, (2 * acc + if b {
            1int
        } else {
            0int
        }) % 256);
    }
}

/// A checked tree walk preserves the model invariant.
pub proof fn lemma_tree_wf(m: ReaderModel, tree: Seq<TreeNode>, index: int)
    requires
        model_wf(m),
        tree_well_formed(tree),
        0 <= index < tree.len(),
    ensures
        model_wf(read_tree_step(m, tree, index).0),
    decreases tree.len() - index,
{
    let node = tree[index];
    let (m1, b) = read_bit_step(m, node.prob as int);
    lemma_step_wf(m, node.prob as int);
    let t = if b {
        node.right as int
    } else {
        node.left as int
    };
    if t < tree.len() {
        lemma_tree_wf(m1, tree, t);
    }
}

/// Fast/slow equivalence for a magnitude-and-sign read.
pub proof fn lemma_fast_magnitude_agrees(m: ReaderModel, n: int)
    requires
        model_wf(m),
    ensures
        ({
            let (s1, v1) = fast_read_magnitude_and_sign_step(m.chunks, m.state, n);
            s1.chunk_index <= m.chunks.len() ==> read_magnitude_and_sign_step(m, n) == (
            ReaderModel { state: s1, ..m },
            v1,
            )
        }),
{
    let (sl, mag) = fast_read_literal_step(m.chunks, m.state, n, 0);
    let (s1, sign) = fast_read_bit_step(m.chunks, sl, 128);
    if s1.chunk_index <= m.chunks.len() {
        lemma_fast_step_bounds(m.chunks, sl, 128);
        assert(sl.chunk_index <= m.chunks.len());
        lemma_fast_literal_agrees(m, n, 0);
        lemma_literal_wf(m, n, 0);
        let ml = ReaderModel { state: sl, ..m };
        assert(ml == read_literal_step(m, n, 0).0);
        lemma_fast_step_agrees(ml, 128);
    }
}

/// A speculative tree walk never moves the chunk position backwards.
pub proof fn lemma_fast_tree_monotone(chunks: Seq<int>, s: FState, tree: Seq<TreeNode>, index: int)
    requires
        tree_well_formed(tree),
        0 <= index < tree.len(),
    ensures
        fast_read_tree_step(chunks, s, tree, index).0.chunk_index >= s.chunk_index,
    decreases tree.len() - index,
{
    let node = tree[index];
    let (s1, b) = fast_read_bit_step(chunks, s, node.prob as int);
    lemma_fast_step_bounds(chunks, s, node.prob as int);
    let t = if b {
        node.right as int
    } else {
        node.left as int
    };
    if t < tree.len() {
        lemma_fast_tree_monotone(chunks, s1, tree, t);
    }
}

/// Fast/slow equivalence for a whole tree walk.
pub proof fn lemma_fast_tree_agrees(m: ReaderModel, tree: Seq<TreeNode>, index: int)
    requires
        model_wf(m),
        tree_well_formed(tree),
        0 <= index < tree.len(),
    ensures
        ({
            let (s1, v1) = fast_read_tree_step(m.chunks, m.state, tree, index);
            s1.chunk_index <= m.chunks.len() ==> read_tree_step(m, tree, index) == (
            ReaderModel { state: s1, ..m },
            v1,
            )
        }),
    decreases tree.len() - index,
{
    let node = tree[index];
    let (s1, v1) = fast_read_tree_step(m.chunks, m.state, tree, index);
    if s1.chunk_index <= m.chunks.len() {
        let (sf, b) = fast_read_bit_step(m.chunks, m.state, node.prob as int);
        let t = if b {
            node.right as int
        } else {
            node.left as int
        };
        if t < tree.len() {
            lemma_fast_tree_monotone(m.chunks, sf, tree, t);
        }
        assert(sf.chunk_index <= m.chunks.len());
        lemma_fast_step_agrees(m, node.prob as int);
        lemma_step_wf(m, node.prob as int);
        let mf = ReaderModel { state: sf, ..m };
        assert(mf == read_bit_step(m, node.prob as int).0);
        if t < tree.len() {
            lemma_fast_tree_agrees(mf, tree, t);
        }
    }
}

/// The two-tier end-of-stream leniency, exactly: with the tail bytes
/// spent, one further refill still succeeds on the implicit zero byte; after
/// that, the very next refill trips the sentinel and the read fails with its
/// state untouched.
pub proof fn lemma_eof_leniency(m: ReaderModel, prob: int)
    requires
        model_wf(m),
        0 <= prob <= 255,
        m.state.bit_count < 0,
        m.state.chunk_index == m.chunks.len(),
    ensures
        m.final_bytes_remaining == 0 ==> !past_eof(read_bit_step(m, prob).0),
        m.final_bytes_remaining == -1 ==> past_eof(read_bit_step(m, prob).0) && read_bit_step(
            m,
            prob,
        ).0.state == m.state && read_bit_step(m, prob).1 == false,
{
}

/// A reader past the end stays past the end and fails every further read,
/// without moving.
pub proof fn lemma_eof_absorbing(m: ReaderModel, prob: int)
    requires
        model_wf(m),
        past_eof(m),
    ensures
        read_bit_step(m, prob).0 == m,
        read_bit_step(m, prob).1 == false,
{
    assert(read_bit_step(m, prob).0 =~~= m);
}

/// The model a freshly initialized reader takes: the whole chunks of the
/// buffer as big-endian words, a zeroed position, and the declared length's
/// remainder framed as tail bytes.
pub open spec fn init_model(words: Seq<[u8; 4]>, len: int) -> ReaderModel {
    let n_chunks = if len == 4 * words.len() {
        words.len() as int
    } else {
        words.len() - 1
    };
    let nb = len - 4 * n_chunks;
    ReaderModel {
        chunks: Seq::new(n_chunks as nat, |i: int| be_word(words[i]@)),
        state: FState { chunk_index: 0, value: 0, range: 255, bit_count: -8 },
        final_bytes: Seq::new(
            3,
            |i: int|
                if i < nb {
                    words[words.len() - 1]@[i] as int
                } else {
                    0
                },
        ),
        final_bytes_remaining: nb,
    }
}

} // verus!
