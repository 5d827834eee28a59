//! Binary arithmetic encoder and decoder driven by a context-conditioned
//! probability estimator.

use vstd::prelude::*;
use crate::bits::{
    bits_of_bytes, bytes_for_bits, get_bit, lemma_bits_of_zeros, lemma_bits_push,
    lemma_index_split, lemma_low_bits_full, lemma_low_bits_pad, lemma_low_bits_shift_in, low_bits,
    pad_to_bytes, read_vec_bit, write_bit,
};
use crate::context::{
    count_true, lemma_count_true_bound, lemma_count_true_update, lemma_count_true_zeros,
    lemma_ring_window_len, ring_window,
};
use crate::model::{
    advance, code_bit, context_at, dec_fill, dec_renorm, decode_model, decoded_bit, emit_run,
    enc_prefix, enc_renorm, enc_start, encode_model, estimator_ok, lemma_estimate_of_call,
    lemma_estimator_callable, narrow_high, narrow_low, split_point, DecState, EncState,
    HALF, QUARTER, THREE_QUARTER, TOTAL,
};
use crate::probability::{ContextContent, FIXED_SCALE, MAX_CONTEXT_BITS};
use crate::correctness::{lemma_encoder_capacity, MAX_CODED_BITS};

verus! {

/// Error type for encoding and decoding operations.
#[derive(Debug)]
pub enum ArithmeticCodingError {
    /// The call's parameters are out of range.
    InvalidInput(String),
    /// A buffer or counter could not grow any further.
    MemoryAllocation(String),
}

/// Working state of one encode or decode call.
pub struct ArithmeticCoder {
    low: u64,
    high: u64,
    value: u64,
    bits_to_follow: u64,
    bit_buffer: u8,
    bit_count: u8,
    output: Vec<u8>,
    context_buffer: Vec<u8>,
    context_capacity: usize,
    context_index: usize,
    count_ones: u32,
    input_byte: usize,
    input_bit: u8,
}

/// The abstract state of an `ArithmeticCoder`.
pub struct CoderView {
    pub low: int,
    pub high: int,
    pub value: int,
    pub pending: int,
    /// Every bit emitted so far, including those of the unfinished byte.
    pub emitted: Seq<bool>,
    /// The context window.
    pub window: Seq<bool>,
    /// Where the next context bit is written.
    pub cursor: int,
    pub count_ones: int,
    /// Index of the next bit to read from the coded stream.
    pub read_pos: int,
}

impl View for ArithmeticCoder {
    type V = CoderView;

    closed spec fn view(&self) -> CoderView {
        CoderView {
            low: self.low as int,
            high: self.high as int,
            value: self.value as int,
            pending: self.bits_to_follow as int,
            emitted: bits_of_bytes(self.output@) + low_bits(self.bit_buffer, self.bit_count as int),
            window: bits_of_bytes(self.context_buffer@).take(self.context_capacity as int),
            cursor: self.context_index as int,
            count_ones: self.count_ones as int,
            read_pos: 8 * self.input_byte + self.input_bit,
        }
    }
}

impl ArithmeticCoder {
    /// Internal consistency: the partial byte holds fewer than eight bits,
    /// the window has its fixed capacity, the cursor lies inside it, and the
    /// running count equals the ones in the window.
    pub closed spec fn wf(&self) -> bool {
        &&& self.bit_count < 8
        &&& self.input_bit < 8
        &&& self.context_buffer@.len() == bytes_for_bits(self.context_capacity as int)
        &&& self.context_capacity <= MAX_CONTEXT_BITS
        &&& (self.context_capacity == 0 ==> self.context_index == 0)
        &&& (self.context_capacity > 0 ==> self.context_index < self.context_capacity)
        &&& self.count_ones == count_true(self@.window)
    }

    /// Emitted bits fill whole bytes.
    pub closed spec fn flushed(&self) -> bool {
        self.bit_count == 0
    }

    /// The bytes produced so far.
    pub closed spec fn output_bytes(&self) -> Seq<u8> {
        self.output@
    }

    /// A fresh coder: the full interval `[0, TOTAL - 1]`, nothing emitted or
    /// read, and an all-zero context window of `context_length` bits.
    pub fn new(context_length: usize) -> (r: Result<Self, ArithmeticCodingError>)
        ensures
            context_length > MAX_CONTEXT_BITS <==> r is Err,
            r is Err ==> r->Err_0 is InvalidInput,
            r is Ok ==> {
                let c = r->Ok_0;
                &&& c.wf()
                &&& c.flushed()
                &&& c.output_bytes() == Seq::<u8>::empty()
                &&& c@ == CoderView {
                    low: 0,
                    high: TOTAL - 1,
                    value: 0,
                    pending: 0,
                    emitted: Seq::empty(),
                    window: Seq::new(context_length as nat, |j: int| false),
                    cursor: 0,
                    count_ones: 0,
                    read_pos: 0,
                }
            },
    {
        if context_length > MAX_CONTEXT_BITS {
            return Err(
                ArithmeticCodingError::InvalidInput(
                    "context length exceeds the maximum of 2048 bits".to_string(),
                ),
            );
        }
        let context_bytes: usize = context_length / 8 + if context_length % 8 != 0 {
            1
        } else {
            0
        };
        let context_buffer = vec![0u8; context_bytes];
        proof {
            lemma_count_true_zeros(context_length as nat);
            lemma_bits_of_zeros(context_bytes as nat);
            assert(context_buffer@ =~= Seq::new(context_bytes as nat, |j: int| 0u8));
            assert(bits_of_bytes(context_buffer@).take(context_length as int) =~= Seq::new(
                context_length as nat,
                |j: int| false,
            ));
            assert(bits_of_bytes(Seq::<u8>::empty()) =~= Seq::<bool>::empty());
            assert(low_bits(0, 0) =~= Seq::<bool>::empty());
        }
        Ok(
            ArithmeticCoder {
                low: 0,
                high: TOTAL - 1,
                value: 0,
                bits_to_follow: 0,
                bit_buffer: 0,
                bit_count: 0,
                output: Vec::new(),
                context_buffer,
                context_capacity: context_length,
                context_index: 0,
                count_ones: 0,
                input_byte: 0,
                input_bit: 0,
            },
        )
    }

    /// Reads the bit at the read position from the first `encoded_length`
    /// bytes of `encoded`; past their end the bit is 0 and the position
    /// stays put.
    pub fn read_bit(&mut self, encoded: &[u8], encoded_length: usize) -> (bit: u8)
        requires
            old(self).wf(),
            encoded_length <= encoded@.len(),
        ensures
            final(self).wf(),
            bit == if code_bit(encoded@, encoded_length as int, old(self)@.read_pos) {
                1u8
            } else {
                0u8
            },
            final(self)@ == (CoderView {
                read_pos: advance(encoded_length as int, old(self)@.read_pos),
                ..old(self)@
            }),
            final(self).flushed() == old(self).flushed(),
            final(self).output_bytes() == old(self).output_bytes(),
    {
        if self.input_byte >= encoded_length {
            return 0;
        }
        let ghost pos = self@.read_pos;
        proof {
            lemma_index_split(self.input_byte as int, self.input_bit as int);
        }
        let shift: u8 = 7 - self.input_bit;
        let byte = encoded[self.input_byte];
        let bit = (byte >> shift) & 1;
        assert(bit <= 1) by (bit_vector)
            requires
                bit == (byte >> shift) & 1,
        ;
        self.input_bit = self.input_bit + 1;
        if self.input_bit == 8 {
            self.input_bit = 0;
            self.input_byte = self.input_byte + 1;
        }
        bit
    }

    /// Appends one bit (the low bit of `bit`) to the output.
    pub fn output_bit(&mut self, bit: u8) -> (r: Result<(), ArithmeticCodingError>)
        requires
            old(self).wf(),
        ensures
            r is Ok,
            final(self).wf(),
            final(self)@ == (CoderView {
                emitted: old(self)@.emitted.push(bit & 1 == 1),
                ..old(self)@
            }),
    {
        let b: u8 = bit & 1;
        assert(b <= 1) by (bit_vector)
            requires
                b == bit & 1,
        ;
        proof {
            lemma_low_bits_shift_in(self.bit_buffer, self.bit_count, b);
        }
        let ghost before = bits_of_bytes(self.output@);
        self.bit_buffer = (self.bit_buffer << 1) | b;
        self.bit_count = self.bit_count + 1;
        if self.bit_count == 8 {
            proof {
                lemma_bits_push(self.output@, self.bit_buffer);
                lemma_low_bits_full(self.bit_buffer);
                assert(low_bits(0, 0) =~= Seq::<bool>::empty());
            }
            self.output.push(self.bit_buffer);
            self.bit_buffer = 0;
            self.bit_count = 0;
            assert(self@.emitted =~= old(self)@.emitted.push(bit & 1 == 1));
        } else {
            assert(self@.emitted =~= old(self)@.emitted.push(bit & 1 == 1));
        }
        Ok(())
    }

    /// Emits the deferred bits, each the low bit of `bit`, and clears the
    /// deferred count.
    pub fn output_following_bits(&mut self, bit: u8) -> (r: Result<(), ArithmeticCodingError>)
        requires
            old(self).wf(),
        ensures
            r is Ok,
            final(self).wf(),
            final(self)@ == (CoderView {
                emitted: old(self)@.emitted + Seq::new(
                    old(self)@.pending as nat,
                    |j: int| bit & 1 == 1,
                ),
                pending: 0,
                ..old(self)@
            }),
    {
        let n = self.bits_to_follow;
        let mut i: u64 = 0;
        while i < n
            invariant
                self.wf(),
                0 <= i <= n,
                n == old(self).bits_to_follow,
                self@ == (CoderView {
                    emitted: old(self)@.emitted + Seq::new(i as nat, |j: int| bit & 1 == 1),
                    ..old(self)@
                }),
            decreases n - i,
        {
            self.output_bit(bit)?;
            i = i + 1;
            assert(self@.emitted =~= old(self)@.emitted + Seq::new(
                i as nat,
                |j: int| bit & 1 == 1,
            ));
        }
        self.bits_to_follow = 0;
        Ok(())
    }

    /// Pads the unfinished byte with zero bits and appends it.
    pub fn flush_output(&mut self) -> (r: Result<(), ArithmeticCodingError>)
        requires
            old(self).wf(),
        ensures
            r is Ok,
            final(self).wf(),
            final(self).flushed(),
            final(self)@ == (CoderView { emitted: pad_to_bytes(old(self)@.emitted), ..old(self)@ }),
            bits_of_bytes(final(self).output_bytes()) == pad_to_bytes(old(self)@.emitted),
    {
        let ghost old_len = self.output@.len();
        proof {
            assert((8 * old_len + self.bit_count) % 8 == self.bit_count as int) by (nonlinear_arith)
                requires
                    self.bit_count < 8,
            ;
            assert(low_bits(0, 0) =~= Seq::<bool>::empty());
        }
        if self.bit_count > 0 {
            proof {
                lemma_bits_push(self.output@, self.bit_buffer << ((8 - self.bit_count) as u8));
                lemma_low_bits_pad(self.bit_buffer, self.bit_count);
            }
            self.bit_buffer = self.bit_buffer << (8 - self.bit_count);
            self.output.push(self.bit_buffer);
            self.bit_buffer = 0;
            self.bit_count = 0;
            assert(self@.emitted =~= pad_to_bytes(old(self)@.emitted));
        } else {
            assert(self@.emitted =~= pad_to_bytes(old(self)@.emitted));
        }
        Ok(())
    }

    /// Writes `new_bit` over the oldest bit of the context window and keeps
    /// the count of ones in step; a window of capacity 0 never changes.
    pub fn update_context(&mut self, new_bit: u8) -> (r: Result<(), ArithmeticCodingError>)
        requires
            old(self).wf(),
            new_bit <= 1,
        ensures
            r is Ok,
            final(self).wf(),
            final(self)@ == (CoderView {
                window: if old(self)@.window.len() > 0 {
                    old(self)@.window.update(old(self)@.cursor, new_bit == 1)
                } else {
                    old(self)@.window
                },
                cursor: if old(self)@.window.len() > 0 {
                    (old(self)@.cursor + 1) % (old(self)@.window.len() as int)
                } else {
                    0
                },
                count_ones: count_true(final(self)@.window) as int,
                ..old(self)@
            }),
            final(self).flushed() == old(self).flushed(),
            final(self).output_bytes() == old(self).output_bytes(),
    {
        if self.context_capacity > 0 {
            let idx = self.context_index;
            let ghost window = self@.window;
            let cap = self.context_capacity;
            assert(idx < 8 * self.context_buffer@.len()) by (nonlinear_arith)
                requires
                    idx < cap,
                    self.context_buffer@.len() == if cap % 8 == 0 {
                        cap as int / 8
                    } else {
                        cap as int / 8 + 1
                    },
            ;
            let old_bit: u32 = if read_vec_bit(&self.context_buffer, idx) {
                1
            } else {
                0
            };
            proof {
                lemma_count_true_update(window, idx as int, new_bit == 1);
                lemma_count_true_bound(window);
            }
            write_bit(&mut self.context_buffer, idx, new_bit == 1);
            assert(self@.window =~= window.update(idx as int, new_bit == 1));
            self.count_ones = self.count_ones + (new_bit as u32) - old_bit;
            self.context_index = (self.context_index + 1) % self.context_capacity;
        }
        Ok(())
    }
}



impl ArithmeticCoder {
    /// Emits `b` followed by the deferred bits, each the complement of `b`.
    fn emit_resolved(&mut self, b: bool)
        requires
            old(self).wf(),
        ensures
            final(self).wf(),
            final(self)@ == (CoderView {
                emitted: old(self)@.emitted + emit_run(b, old(self)@.pending),
                pending: 0,
                ..old(self)@
            }),
    {
        assert(1u8 & 1u8 == 1u8 && 0u8 & 1u8 == 0u8) by (bit_vector);
        let ghost before = self@;
        if b {
            let _ = self.output_bit(1);
            let _ = self.output_following_bits(0);
        } else {
            let _ = self.output_bit(0);
            let _ = self.output_following_bits(1);
        }
        assert(self@.emitted =~= before.emitted + emit_run(b, before.pending));
    }

    /// Narrows `[low, high]` to the sub-interval of `bit`, where a one has
    /// probability `p_one / FIXED_SCALE`.
    fn narrow_interval(&mut self, p_one: u32, bit: bool)
        requires
            old(self).wf(),
            settled(old(self)@.low, old(self)@.high),
            1 <= p_one < FIXED_SCALE,
        ensures
            final(self).wf(),
            final(self)@ == (CoderView {
                low: narrow_low(old(self)@.low, old(self)@.high, p_one as int, bit),
                high: narrow_high(old(self)@.low, old(self)@.high, p_one as int, bit),
                ..old(self)@
            }),
            0 <= final(self)@.low <= final(self)@.high < TOTAL,
    {
        let p_zero: u64 = (FIXED_SCALE - p_one) as u64;
        let range: u64 = self.high - self.low + 1;
        proof {
            lemma_split_bounds(range as int, p_zero as int);
        }
        let mut split: u64 = range * p_zero / (FIXED_SCALE as u64);
        if split > range - 1 {
            split = range - 1;
        }
        if bit {
            self.low = self.low + split;
        } else {
            self.high = self.low + split - 1;
        }
    }

    /// Rescales until no E1/E2/E3 case applies, emitting resolved bits and
    /// counting deferred ones; fails when the deferred count would overflow.
    fn renormalize_encoder(&mut self) -> (r: Result<(), ArithmeticCodingError>)
        requires
            old(self).wf(),
            0 <= old(self)@.low <= old(self)@.high < TOTAL,
        ensures
            final(self).wf(),
            r is Ok <==> !enc_renorm(enc_view(old(self)@)).overflow,
            r is Ok ==> enc_view(final(self)@) == enc_renorm(enc_view(old(self)@)),
            r is Ok ==> settled(final(self)@.low, final(self)@.high),
            final(self)@.window == old(self)@.window,
            final(self)@.cursor == old(self)@.cursor,
            final(self)@.count_ones == old(self)@.count_ones,
    {
        let ghost start = enc_view(self@);
        assert(start == enc_view(old(self)@));
        loop
            invariant
                self.wf(),
                0 <= self@.low <= self@.high < TOTAL,
                enc_renorm(enc_view(self@)) == enc_renorm(start),
                start == enc_view(old(self)@),
                self@.window == old(self)@.window,
                self@.cursor == old(self)@.cursor,
                self@.count_ones == old(self)@.count_ones,
            decreases TOTAL - (self@.high - self@.low),
        {
            if self.high < HALF {
                self.emit_resolved(false);
                self.low = self.low * 2;
                self.high = self.high * 2 + 1;
            } else if self.low >= HALF {
                self.emit_resolved(true);
                self.low = (self.low - HALF) * 2;
                self.high = (self.high - HALF) * 2 + 1;
            } else if self.low >= QUARTER && self.high < THREE_QUARTER {
                if self.bits_to_follow == u64::MAX {
                    assert(enc_renorm(enc_view(self@)).overflow);
                    return Err(
                        ArithmeticCodingError::MemoryAllocation(
                            "too many deferred bits".to_string(),
                        ),
                    );
                }
                self.bits_to_follow = self.bits_to_follow + 1;
                self.low = (self.low - QUARTER) * 2;
                self.high = (self.high - QUARTER) * 2 + 1;
            } else {
                assert(enc_renorm(enc_view(self@)) == enc_view(self@));
                return Ok(());
            }
        }
    }
}

/// The first `length` bits of `sequence`, most significant bit of each byte first.
pub open spec fn input_bits(sequence: Seq<u8>, length: int) -> Seq<bool> {
    bits_of_bytes(sequence).take(length)
}

/// The encoder part of a coder's state.
pub open spec fn enc_view(c: CoderView) -> EncState {
    EncState { low: c.low, high: c.high, pending: c.pending, out: c.emitted, overflow: false }
}

/// Interval bounds from which no rescaling applies: the interval straddles
/// the midpoint and is wider than a quarter.
pub open spec fn settled(low: int, high: int) -> bool {
    &&& low < HALF <= high < TOTAL
    &&& (low < QUARTER || high >= THREE_QUARTER)
}

/// A settled interval splits into two non-empty parts, without overflow.
pub proof fn lemma_split_bounds(range: int, p_zero: int)
    requires
        QUARTER < range <= TOTAL,
        1 <= p_zero < FIXED_SCALE,
    ensures
        range * p_zero < 0x1_0000_0000_0000,
        1 <= range * p_zero / (FIXED_SCALE as int) <= range - 1,
{
    assert(range * p_zero < 0x1_0000_0000_0000) by (nonlinear_arith)
        requires
            0 < range <= TOTAL,
            1 <= p_zero < FIXED_SCALE,
    ;
    assert(range * p_zero >= FIXED_SCALE) by (nonlinear_arith)
        requires
            QUARTER < range,
            1 <= p_zero,
    ;
    assert(range * p_zero < range * FIXED_SCALE) by (nonlinear_arith)
        requires
            0 < range,
            p_zero < FIXED_SCALE,
    ;
    assert(1 <= range * p_zero / (FIXED_SCALE as int) <= range - 1) by (nonlinear_arith)
        requires
            range * p_zero >= FIXED_SCALE,
            range * p_zero < range * FIXED_SCALE,
    ;
}

/// Advancing a wrapped cursor wraps the advanced index.
proof fn lemma_cursor_step(i: int, k: int)
    requires
        0 <= i,
        0 < k,
    ensures
        (i % k + 1) % k == (i + 1) % k,
{
    vstd::arithmetic::div_mod::lemma_add_mod_noop(i, 1, k);
    vstd::arithmetic::div_mod::lemma_mod_twice(i, k);
    if k > 1 {
        vstd::arithmetic::div_mod::lemma_small_mod(1, k as nat);
    } else {
        assert((i % k + 1) % k == 0 && (i + 1) % k == 0) by (nonlinear_arith)
            requires
                k == 1,
        ;
    }
}

/// Writing one more bit updates the slot of its index.
proof fn lemma_ring_window_push(k: nat, h: Seq<bool>, b: bool)
    requires
        k > 0,
    ensures
        ring_window(k, h.push(b)) == ring_window(k, h).update((h.len() as int) % (k as int), b),
{
    assert(h.push(b).drop_last() =~= h);
}

/// Once the deferred-bit counter has overflowed, the encoder stays failed.
pub proof fn lemma_enc_overflow_persists<F: Fn(&ContextContent) -> u32>(
    f: F,
    k: usize,
    bits: Seq<bool>,
    j: int,
)
    requires
        0 <= j <= bits.len(),
        enc_prefix(f, k, bits.take(j)).overflow,
    ensures
        enc_prefix(f, k, bits).overflow,
    decreases bits.len(),
{
    if j == bits.len() {
        assert(bits.take(j) =~= bits);
    } else {
        assert(bits.drop_last().take(j) =~= bits.take(j));
        lemma_enc_overflow_persists(f, k, bits.drop_last(), j);
    }
}

/// Encodes the first `length` bits of `sequence` (most significant bit of
/// each byte first), conditioning each bit on the last `context_length`
/// bits through `get_probability_fixed`.
///
/// Fails with `InvalidInput` exactly when `context_length` exceeds
/// `MAX_CONTEXT_BITS` or `sequence` holds fewer than `length` bits, and with
/// `MemoryAllocation` exactly when the deferred-bit counter of the coding
/// would exceed 64 bits. Otherwise the output is the coded bit stream of
/// `encode_model`, zero-padded to whole bytes. Inputs of up to
/// `MAX_CODED_BITS` bits are always coded.
#[verifier::rlimit(40)]
pub fn arithmetic_encode<F: Fn(&ContextContent) -> u32>(
    sequence: &[u8],
    length: usize,
    context_length: usize,
    get_probability_fixed: F,
) -> (r: Result<Vec<u8>, ArithmeticCodingError>)
    requires
        estimator_ok(get_probability_fixed, context_length),
    ensures
        ({
            let bad = context_length > MAX_CONTEXT_BITS || length > 8 * sequence@.len();
            let m = encode_model(
                get_probability_fixed,
                context_length,
                input_bits(sequence@, length as int),
            );
            match r {
                Err(ArithmeticCodingError::InvalidInput(_)) => bad,
                Err(ArithmeticCodingError::MemoryAllocation(_)) => !bad && m.overflow,
                Ok(out) => !bad && !m.overflow && bits_of_bytes(out@) == pad_to_bytes(m.out),
            }
        }),
        !(context_length > MAX_CONTEXT_BITS || length > 8 * sequence@.len()) && length
            <= MAX_CODED_BITS ==> r is Ok,
{
    let mut coder = ArithmeticCoder::new(context_length)?;
    let nbytes: usize = length / 8 + if length % 8 != 0 {
        1
    } else {
        0
    };
    if nbytes > sequence.len() {
        return Err(
            ArithmeticCodingError::InvalidInput(
                "sequence holds fewer bits than the given length".to_string(),
            ),
        );
    }
    let ghost f = get_probability_fixed;
    let ghost k = context_length;
    let ghost bits = input_bits(sequence@, length as int);
    proof {
        if length <= MAX_CODED_BITS {
            lemma_encoder_capacity(f, k, bits);
        }
        lemma_count_true_zeros(k as nat);
        assert(bits.take(0) =~= Seq::<bool>::empty());
        assert(enc_view(coder@) =~= enc_start());
        assert(coder@.window =~= ring_window(k as nat, bits.take(0)));
    }
    let mut i: usize = 0;
    while i < length
        invariant
            coder.wf(),
            estimator_ok(f, k),
            f == get_probability_fixed,
            k == context_length,
            context_length <= MAX_CONTEXT_BITS,
            length <= 8 * sequence@.len(),
            bits == input_bits(sequence@, length as int),
            bits.len() == length,
            length <= MAX_CODED_BITS ==> !encode_model(f, k, bits).overflow,
            0 <= i <= length,
            enc_view(coder@) == enc_prefix(f, k, bits.take(i as int)),
            settled(coder@.low, coder@.high),
            coder@.window == ring_window(k as nat, bits.take(i as int)),
            coder@.cursor == if k > 0 {
                i as int % (k as int)
            } else {
                0
            },
            coder@.count_ones == count_true(coder@.window),
        decreases length - i,
    {
        let bit = get_bit(sequence, i);
        let ghost hist = bits.take(i as int);
        let context_content = ContextContent { context_length, count_ones: coder.count_ones };
        proof {
            lemma_ring_window_len(k as nat, hist);
            lemma_count_true_bound(coder@.window);
            assert(context_content == context_at(k, hist));
            lemma_estimator_callable(f, k, context_content);
        }
        let p1_fixed = get_probability_fixed(&context_content);
        proof {
            lemma_estimate_of_call(f, k, context_content, p1_fixed);
        }
        coder.narrow_interval(p1_fixed, bit == 1);
        proof {
            assert(bits.take(i + 1).drop_last() =~= hist);
            assert(bits.take(i + 1).last() == bits[i as int]);
            assert(bits[i as int] == bits_of_bytes(sequence@)[i as int]);
        }
        let renorm = coder.renormalize_encoder();
        if renorm.is_err() {
            proof {
                lemma_enc_overflow_persists(f, k, bits, i + 1);
                assert(bits.take(length as int) =~= bits);
            }
            return Err(ArithmeticCodingError::MemoryAllocation("too many deferred bits".to_string()));
        }
        coder.update_context(bit)?;
        proof {
            assert(bits.take(i + 1) =~= hist.push(bits[i as int]));
            if k > 0 {
                lemma_ring_window_push(k as nat, hist, bits[i as int]);
                lemma_cursor_step(i as int, k as int);
            } else {
                assert(ring_window(k as nat, bits.take(i + 1)) =~= coder@.window);
            }
        }
        i = i + 1;
    }
    proof {
        assert(bits.take(length as int) =~= bits);
    }
    if coder.bits_to_follow == u64::MAX {
        return Err(ArithmeticCodingError::MemoryAllocation("too many deferred bits".to_string()));
    }
    coder.bits_to_follow = coder.bits_to_follow + 1;
    if coder.low < QUARTER {
        coder.emit_resolved(false);
    } else {
        coder.emit_resolved(true);
    }
    coder.flush_output()?;
    Ok(coder.output)
}

/// The decoder part of a coder's state, with the bits decoded so far.
pub open spec fn dec_view(c: CoderView, out: Seq<bool>) -> DecState {
    DecState { low: c.low, high: c.high, value: c.value, pos: c.read_pos, out }
}

/// The value register selects the one-bit sub-interval exactly when it lies
/// at or above the split point.
pub proof fn lemma_decoded_bit_position(low: int, high: int, value: int, p_one: int)
    requires
        settled(low, high),
        0 <= low <= value <= high,
        1 <= p_one < FIXED_SCALE,
    ensures
        decoded_bit(DecState { low, high, value, pos: 0, out: Seq::empty() }, p_one) <==> value
            >= low + split_point(low, high, p_one),
{
    let r = high - low + 1;
    let d = value - low;
    let p_zero = FIXED_SCALE - p_one;
    let m = p_zero * 0x1_0000;
    lemma_split_bounds(r, p_zero);
    assert(p_zero * TOTAL / (FIXED_SCALE as int) == m) by (nonlinear_arith)
        requires
            m == p_zero * 0x1_0000,
    ;
    assert(m <= TOTAL - 1) by (nonlinear_arith)
        requires
            m == p_zero * 0x1_0000,
            p_zero < FIXED_SCALE,
    ;
    let x = (d + 1) * TOTAL - 1;
    assert(x >= 0) by (nonlinear_arith)
        requires
            x == (d + 1) * TOTAL - 1,
            d >= 0,
    ;
    let split = r * p_zero / (FIXED_SCALE as int);
    assert(x / r < m <==> x < m * r) by (nonlinear_arith)
        requires
            r > 0,
            x >= 0,
            m >= 0,
    ;
    assert(x < m * r <==> (d + 1) * FIXED_SCALE <= p_zero * r) by (nonlinear_arith)
        requires
            x == (d + 1) * TOTAL - 1,
            m == p_zero * 0x1_0000,
    ;
    assert((d + 1) * FIXED_SCALE <= p_zero * r <==> d + 1 <= split) by (nonlinear_arith)
        requires
            split == r * p_zero / (FIXED_SCALE as int),
            d >= 0,
            r > 0,
            p_zero > 0,
    ;
}

impl ArithmeticCoder {
    /// Rescales until no E1/E2/E3 case applies, mirroring each rescaling on
    /// the value register and shifting in one stream bit per step.
    fn renormalize_decoder(&mut self, encoded: &[u8], encoded_length: usize, Ghost(out): Ghost<
        Seq<bool>,
    >)
        requires
            old(self).wf(),
            0 <= old(self)@.low <= old(self)@.value <= old(self)@.high < TOTAL,
            encoded_length <= encoded@.len(),
            old(self)@.read_pos <= 8 * encoded_length,
        ensures
            final(self).wf(),
            dec_view(final(self)@, out) == dec_renorm(
                dec_view(old(self)@, out),
                encoded@,
                encoded_length as int,
            ),
            settled(final(self)@.low, final(self)@.high),
            final(self)@.low <= final(self)@.value <= final(self)@.high,
            final(self)@.read_pos <= 8 * encoded_length,
            final(self)@.window == old(self)@.window,
            final(self)@.cursor == old(self)@.cursor,
            final(self)@.count_ones == old(self)@.count_ones,
    {
        let ghost start = dec_view(self@, out);
        let ghost code = encoded@;
        let ghost n = encoded_length as int;
        loop
            invariant
                self.wf(),
                0 <= self@.low <= self@.value <= self@.high < TOTAL,
                encoded_length <= encoded@.len(),
                code == encoded@,
                n == encoded_length,
                self@.read_pos <= 8 * encoded_length,
                dec_renorm(dec_view(self@, out), code, n) == dec_renorm(start, code, n),
                start == dec_view(old(self)@, out),
                self@.window == old(self)@.window,
                self@.cursor == old(self)@.cursor,
                self@.count_ones == old(self)@.count_ones,
            decreases TOTAL - (self@.high - self@.low),
        {
            if self.high < HALF {
            } else if self.low >= HALF {
                self.value = self.value - HALF;
                self.low = self.low - HALF;
                self.high = self.high - HALF;
            } else if self.low >= QUARTER && self.high < THREE_QUARTER {
                self.value = self.value - QUARTER;
                self.low = self.low - QUARTER;
                self.high = self.high - QUARTER;
            } else {
                assert(dec_renorm(dec_view(self@, out), code, n) == dec_view(self@, out));
                return;
            }
            self.low = self.low * 2;
            self.high = self.high * 2 + 1;
            let bit = self.read_bit(encoded, encoded_length);
            self.value = self.value * 2 + bit as u64;
        }
    }
}

/// Decodes `decoded_length` bits from the first `encoded_length` bytes of
/// `encoded` (zeros past them), conditioning each bit on the last
/// `context_length` decoded bits through `get_probability_fixed`.
///
/// Fails with `InvalidInput` exactly when `context_length` exceeds
/// `MAX_CONTEXT_BITS` or `encoded_length` exceeds the length of `encoded`.
/// Otherwise the output holds the bits of `decode_model`, most significant
/// bit of each byte first, zero-padded to whole bytes.
pub fn arithmetic_decode<F: Fn(&ContextContent) -> u32>(
    encoded: &[u8],
    encoded_length: usize,
    decoded_length: usize,
    context_length: usize,
    get_probability_fixed: F,
) -> (r: Result<Vec<u8>, ArithmeticCodingError>)
    requires
        estimator_ok(get_probability_fixed, context_length),
    ensures
        ({
            let bad = context_length > MAX_CONTEXT_BITS || encoded_length > encoded@.len();
            let m = decode_model(
                get_probability_fixed,
                context_length,
                encoded@,
                encoded_length as int,
                decoded_length as nat,
            );
            match r {
                Err(ArithmeticCodingError::InvalidInput(_)) => bad,
                Err(ArithmeticCodingError::MemoryAllocation(_)) => false,
                Ok(out) => !bad && out@.len() == bytes_for_bits(decoded_length as int)
                    && bits_of_bytes(out@) == pad_to_bytes(m.out),
            }
        }),
{
    let mut coder = ArithmeticCoder::new(context_length)?;
    if encoded_length > encoded.len() {
        return Err(
            ArithmeticCodingError::InvalidInput(
                "encoded length exceeds the buffer".to_string(),
            ),
        );
    }
    let ghost f = get_probability_fixed;
    let ghost k = context_length;
    let ghost code = encoded@;
    let ghost n = encoded_length as int;
    proof {
        vstd::arithmetic::power2::lemma2_to64();
    }
    let mut j: usize = 0;
    while j < 32
        invariant
            coder.wf(),
            0 <= j <= 32,
            encoded_length <= encoded@.len(),
            code == encoded@,
            n == encoded_length,
            (coder@.value, coder@.read_pos) == dec_fill(code, n, j as nat),
            coder@.value < vstd::arithmetic::power2::pow2(j as nat),
            coder@.read_pos <= 8 * encoded_length,
            coder@.low == 0,
            coder@.high == TOTAL - 1,
            coder@.window == Seq::new(k as nat, |t: int| false),
            coder@.cursor == 0,
            coder@.count_ones == 0,
            k == context_length,
        decreases 32 - j,
    {
        proof {
            vstd::arithmetic::power2::lemma2_to64();
            vstd::arithmetic::power2::lemma_pow2_unfold((j + 1) as nat);
            vstd::arithmetic::power2::lemma_pow2_strictly_increases(j as nat, 32);
        }
        let bit = coder.read_bit(encoded, encoded_length);
        coder.value = coder.value * 2 + bit as u64;
        j = j + 1;
    }
    proof {
        vstd::arithmetic::power2::lemma2_to64();
    }
    let nbytes: usize = decoded_length / 8 + if decoded_length % 8 != 0 {
        1
    } else {
        0
    };
    let mut decoded: Vec<u8> = vec![0u8; nbytes];
    let ghost mut out: Seq<bool> = Seq::empty();
    proof {
        lemma_count_true_zeros(k as nat);
        lemma_bits_of_zeros(nbytes as nat);
        assert(decoded@ =~= Seq::new(nbytes as nat, |t: int| 0u8));
        assert(coder@.window =~= ring_window(k as nat, out));
        assert(dec_view(coder@, out) == decode_model(f, k, code, n, 0));
        assert(8 * nbytes >= decoded_length) by (nonlinear_arith)
            requires
                nbytes == decoded_length / 8 + if decoded_length % 8 != 0 {
                    1int
                } else {
                    0int
                },
        ;
        assert(bits_of_bytes(decoded@) =~= out + Seq::new((8 * nbytes) as nat, |t: int| false));
    }
    let mut i: usize = 0;
    while i < decoded_length
        invariant
            coder.wf(),
            estimator_ok(f, k),
            f == get_probability_fixed,
            k == context_length,
            context_length <= MAX_CONTEXT_BITS,
            encoded_length <= encoded@.len(),
            code == encoded@,
            n == encoded_length,
            0 <= i <= decoded_length,
            decoded_length <= 8 * nbytes,
            decoded@.len() == nbytes,
            dec_view(coder@, out) == decode_model(f, k, code, n, i as nat),
            out.len() == i,
            bits_of_bytes(decoded@) == out + Seq::new((8 * nbytes - i) as nat, |t: int| false),
            settled(coder@.low, coder@.high),
            coder@.low <= coder@.value <= coder@.high,
            coder@.read_pos <= 8 * encoded_length,
            coder@.window == ring_window(k as nat, out),
            coder@.cursor == if k > 0 {
                i as int % (k as int)
            } else {
                0
            },
            coder@.count_ones == count_true(coder@.window),
        decreases decoded_length - i,
    {
        let context_content = ContextContent { context_length, count_ones: coder.count_ones };
        proof {
            lemma_ring_window_len(k as nat, out);
            lemma_count_true_bound(coder@.window);
            assert(context_content == context_at(k, out));
            lemma_estimator_callable(f, k, context_content);
        }
        let p1_fixed = get_probability_fixed(&context_content);
        proof {
            lemma_estimate_of_call(f, k, context_content, p1_fixed);
        }
        let p0_fixed: u64 = (FIXED_SCALE - p1_fixed) as u64;
        let mut scaled_zero: u64 = p0_fixed * TOTAL / (FIXED_SCALE as u64);
        if scaled_zero > TOTAL - 1 {
            scaled_zero = TOTAL - 1;
        }
        let range: u64 = coder.high - coder.low + 1;
        let offset: u64 = coder.value - coder.low + 1;
        assert((offset as u128) * (TOTAL as u128) <= 0x1_0000_0000 * 0x1_0000_0000) by (nonlinear_arith)
            requires
                offset <= 0x1_0000_0000,
        ;
        let temp: u128 = (offset as u128) * (TOTAL as u128) - 1;
        assert(temp / (range as u128) < TOTAL) by (nonlinear_arith)
            requires
                temp < offset * TOTAL,
                offset <= range,
                range > 0,
        ;
        let scaled_value: u64 = (temp / (range as u128)) as u64;
        let bit: u8 = if scaled_value < scaled_zero {
            0
        } else {
            1
        };
        let ghost before = coder@;
        let ghost s = decode_model(f, k, code, n, i as nat);
        proof {
            lemma_decoded_bit_position(before.low, before.high, before.value, p1_fixed as int);
            assert(decoded_bit(s, p1_fixed as int) == decoded_bit(
                DecState { low: before.low, high: before.high, value: before.value, pos: 0, out: Seq::empty() },
                p1_fixed as int,
            ));
            assert((bit == 1) == decoded_bit(s, p1_fixed as int));
        }
        write_bit(&mut decoded, i, bit == 1);
        let ghost new_out = out.push(bit == 1);
        proof {
            assert(bits_of_bytes(decoded@) =~= new_out + Seq::new(
                (8 * nbytes - (i + 1)) as nat,
                |t: int| false,
            ));
        }
        coder.update_context(bit)?;
        proof {
            if k > 0 {
                lemma_ring_window_push(k as nat, out, bit == 1);
                lemma_cursor_step(i as int, k as int);
            } else {
                assert(ring_window(k as nat, new_out) =~= coder@.window);
            }
            lemma_split_bounds(before.high - before.low + 1, FIXED_SCALE - p1_fixed);
        }
        coder.narrow_interval(p1_fixed, bit == 1);
        proof {
            out = new_out;
        }
        coder.renormalize_decoder(encoded, encoded_length, Ghost(out));
        i = i + 1;
    }
    proof {
        assert(8 * nbytes - decoded_length == if decoded_length % 8 == 0 {
            0int
        } else {
            8 - decoded_length % 8
        }) by (nonlinear_arith)
            requires
                nbytes == decoded_length / 8 + if decoded_length % 8 != 0 {
                    1int
                } else {
                    0int
                },
        ;
        assert(bits_of_bytes(decoded@) =~= pad_to_bytes(out));
    }
    Ok(decoded)
}
} // verus!
