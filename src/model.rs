//! The coder as a mathematical state machine: interval narrowing,
//! renormalization, and the complete encode and decode functions.

use vstd::prelude::*;
use crate::bits::bits_of_bytes;
use crate::context::{count_true, ring_window};
use crate::probability::{example_get_probability_fixed, ContextContent, FIXED_SCALE};

verus! {

/// `2^32`: one past the largest interval bound.
pub const TOTAL: u64 = 0x1_0000_0000;

/// `2^31`.
pub const HALF: u64 = 0x8000_0000;

/// `2^30`.
pub const QUARTER: u64 = 0x4000_0000;

/// `3 * 2^30`.
pub const THREE_QUARTER: u64 = 0xC000_0000;

/// The value an estimator returns for a context. A query that can return
/// nothing (it never does, from the coder's point of view) counts as one half.
pub open spec fn estimate<F: Fn(&ContextContent) -> u32>(f: F, c: ContextContent) -> u32 {
    if exists|r: u32| call_ensures(f, (&c,), r) {
        choose|r: u32| call_ensures(f, (&c,), r)
    } else {
        FIXED_SCALE / 2
    }
}

/// `f` may be called on every valid context of length `k`, always returns
/// the same value for the same context, and that value lies strictly
/// between 0 and `FIXED_SCALE`.
pub open spec fn estimator_ok<F: Fn(&ContextContent) -> u32>(f: F, k: usize) -> bool {
    forall|c: ContextContent|
        #![trigger call_requires(f, (&c,))]
        c.context_length == k && c.count_ones <= k ==> {
            &&& call_requires(f, (&c,))
            &&& forall|r: u32| #[trigger]
                call_ensures(f, (&c,), r) ==> 1 <= r < FIXED_SCALE
            &&& forall|r1: u32, r2: u32|
                #[trigger] call_ensures(f, (&c,), r1) && #[trigger] call_ensures(f, (&c,), r2)
                    ==> r1 == r2
        }
}

/// The Laplace estimator meets the estimator contract at every window length.
pub proof fn lemma_laplace_estimator_ok(k: usize)
    ensures
        estimator_ok(example_get_probability_fixed, k),
{
    let f = example_get_probability_fixed;
    assert forall|c: ContextContent| c.context_length == k && c.count_ones <= k implies #[trigger]
        call_requires(f, (&c,)) by {}
}

/// A valid estimator accepts every valid context of its length.
pub proof fn lemma_estimator_callable<F: Fn(&ContextContent) -> u32>(
    f: F,
    k: usize,
    c: ContextContent,
)
    requires
        estimator_ok(f, k),
        c.context_length == k,
        c.count_ones <= k,
    ensures
        call_requires(f, (&c,)),
{
}

/// What a valid estimator returned is its `estimate`, within bounds.
pub proof fn lemma_estimate_of_call<F: Fn(&ContextContent) -> u32>(
    f: F,
    k: usize,
    c: ContextContent,
    r: u32,
)
    requires
        estimator_ok(f, k),
        c.context_length == k,
        c.count_ones <= k,
        call_ensures(f, (&c,), r),
    ensures
        estimate(f, c) == r,
        1 <= r < FIXED_SCALE,
{
    assert(call_requires(f, (&c,)));
    let e = estimate(f, c);
    assert(call_ensures(f, (&c,), e));
}

/// The statistics the estimator sees after the bits of `history`.
pub open spec fn context_at(k: usize, history: Seq<bool>) -> ContextContent {
    ContextContent {
        context_length: k,
        count_ones: count_true(ring_window(k as nat, history)) as u32,
    }
}

/// Width of the zero sub-interval of `[low, high]` when one has probability
/// `p_one / FIXED_SCALE`.
pub open spec fn split_point(low: int, high: int, p_one: int) -> int {
    let range = high - low + 1;
    let s = range * (FIXED_SCALE - p_one) / (FIXED_SCALE as int);
    if s > range - 1 {
        range - 1
    } else {
        s
    }
}

/// The lower bound after coding `bit`.
pub open spec fn narrow_low(low: int, high: int, p_one: int, bit: bool) -> int {
    if bit {
        low + split_point(low, high, p_one)
    } else {
        low
    }
}

/// The upper bound after coding `bit`.
pub open spec fn narrow_high(low: int, high: int, p_one: int, bit: bool) -> int {
    if bit {
        high
    } else {
        low + split_point(low, high, p_one) - 1
    }
}

/// A resolved bit followed by `n` copies of its complement.
pub open spec fn emit_run(b: bool, n: int) -> Seq<bool> {
    seq![b] + Seq::new(n as nat, |j: int| !b)
}

/// The encoder: interval bounds, deferred bits, the bits emitted so far, and
/// whether the deferred-bit counter ran out of its 64 bits.
pub struct EncState {
    pub low: int,
    pub high: int,
    pub pending: int,
    pub out: Seq<bool>,
    pub overflow: bool,
}

pub open spec fn enc_start() -> EncState {
    EncState { low: 0, high: TOTAL - 1, pending: 0, out: Seq::empty(), overflow: false }
}

/// Applies the E1/E2/E3 rescalings until none applies.
pub open spec fn enc_renorm(s: EncState) -> EncState
    decreases TOTAL - (s.high - s.low),
{
    if s.overflow || !(0 <= s.low <= s.high < TOTAL) {
        s
    } else if s.high < HALF {
        enc_renorm(
            EncState {
                low: 2 * s.low,
                high: 2 * s.high + 1,
                pending: 0,
                out: s.out + emit_run(false, s.pending),
                overflow: false,
            },
        )
    } else if s.low >= HALF {
        enc_renorm(
            EncState {
                low: 2 * (s.low - HALF),
                high: 2 * (s.high - HALF) + 1,
                pending: 0,
                out: s.out + emit_run(true, s.pending),
                overflow: false,
            },
        )
    } else if s.low >= QUARTER && s.high < THREE_QUARTER {
        if s.pending >= u64::MAX {
            EncState { overflow: true, ..s }
        } else {
            enc_renorm(
                EncState {
                    low: 2 * (s.low - QUARTER),
                    high: 2 * (s.high - QUARTER) + 1,
                    pending: s.pending + 1,
                    out: s.out,
                    overflow: false,
                },
            )
        }
    } else {
        s
    }
}

/// Codes one bit with probability `p_one` of a one.
pub open spec fn enc_step(s: EncState, p_one: int, bit: bool) -> EncState {
    if s.overflow {
        s
    } else {
        enc_renorm(
            EncState {
                low: narrow_low(s.low, s.high, p_one, bit),
                high: narrow_high(s.low, s.high, p_one, bit),
                ..s
            },
        )
    }
}

/// The encoder after the bits of `bits`, before the final flush.
pub open spec fn enc_prefix<F: Fn(&ContextContent) -> u32>(
    f: F,
    k: usize,
    bits: Seq<bool>,
) -> EncState
    decreases bits.len(),
{
    if bits.len() == 0 {
        enc_start()
    } else {
        let prev = bits.drop_last();
        enc_step(enc_prefix(f, k, prev), estimate(f, context_at(k, prev)) as int, bits.last())
    }
}

/// The final flush: one more deferred bit, resolved towards the quarter
/// that holds `low`.
pub open spec fn enc_finish(s: EncState) -> EncState {
    if s.overflow || s.pending >= u64::MAX {
        EncState { overflow: true, ..s }
    } else {
        EncState {
            pending: 0,
            out: s.out + emit_run(!(s.low < QUARTER), s.pending + 1),
            ..s
        }
    }
}

/// The complete encoder run over `bits`.
pub open spec fn encode_model<F: Fn(&ContextContent) -> u32>(
    f: F,
    k: usize,
    bits: Seq<bool>,
) -> EncState {
    enc_finish(enc_prefix(f, k, bits))
}

/// Bit `j` of the coded stream: the first `n` bytes of `code`, then zeros.
pub open spec fn code_bit(code: Seq<u8>, n: int, j: int) -> bool {
    0 <= j < 8 * n && bits_of_bytes(code)[j]
}

/// The read position after reading one bit; it stays at the end of the
/// stream once there.
pub open spec fn advance(n: int, pos: int) -> int {
    if pos < 8 * n {
        pos + 1
    } else {
        pos
    }
}

/// The decoder: interval bounds, the value register, the read position and
/// the bits decoded so far.
pub struct DecState {
    pub low: int,
    pub high: int,
    pub value: int,
    pub pos: int,
    pub out: Seq<bool>,
}

/// The value register and read position after reading `count` bits from
/// the start of the stream.
pub open spec fn dec_fill(code: Seq<u8>, n: int, count: nat) -> (int, int)
    decreases count,
{
    if count == 0 {
        (0, 0)
    } else {
        let (v, p) = dec_fill(code, n, (count - 1) as nat);
        (2 * v + if code_bit(code, n, p) {
            1int
        } else {
            0int
        }, advance(n, p))
    }
}

pub open spec fn dec_start(code: Seq<u8>, n: int) -> DecState {
    let (v, p) = dec_fill(code, n, 32);
    DecState { low: 0, high: TOTAL - 1, value: v, pos: p, out: Seq::empty() }
}

/// Doubles the interval and shifts one stream bit into the value register.
pub open spec fn dec_shift(s: DecState, code: Seq<u8>, n: int) -> DecState {
    DecState {
        low: 2 * s.low,
        high: 2 * s.high + 1,
        value: 2 * s.value + if code_bit(code, n, s.pos) {
            1int
        } else {
            0int
        },
        pos: advance(n, s.pos),
        out: s.out,
    }
}

/// Applies the E1/E2/E3 rescalings, mirrored on the value register.
pub open spec fn dec_renorm(s: DecState, code: Seq<u8>, n: int) -> DecState
    decreases TOTAL - (s.high - s.low),
{
    if !(0 <= s.low <= s.high < TOTAL) {
        s
    } else if s.high < HALF {
        dec_renorm(dec_shift(s, code, n), code, n)
    } else if s.low >= HALF {
        dec_renorm(
            dec_shift(
                DecState {
                    low: s.low - HALF,
                    high: s.high - HALF,
                    value: s.value - HALF,
                    ..s
                },
                code,
                n,
            ),
            code,
            n,
        )
    } else if s.low >= QUARTER && s.high < THREE_QUARTER {
        dec_renorm(
            dec_shift(
                DecState {
                    low: s.low - QUARTER,
                    high: s.high - QUARTER,
                    value: s.value - QUARTER,
                    ..s
                },
                code,
                n,
            ),
            code,
            n,
        )
    } else {
        s
    }
}

/// The zero-bit probability `FIXED_SCALE - p_one` scaled to `TOTAL`.
pub open spec fn scaled_p0(p_one: int) -> int {
    let s = (FIXED_SCALE - p_one) * TOTAL / (FIXED_SCALE as int);
    if s > TOTAL - 1 {
        TOTAL - 1
    } else {
        s
    }
}

/// The bit that the value register selects in `[low, high]`.
pub open spec fn decoded_bit(s: DecState, p_one: int) -> bool {
    let range = s.high - s.low + 1;
    let scaled_value = ((s.value - s.low + 1) * TOTAL - 1) / range;
    !(scaled_value < scaled_p0(p_one))
}

/// Decodes one bit with probability `p_one` of a one.
pub open spec fn dec_step(s: DecState, p_one: int, code: Seq<u8>, n: int) -> DecState {
    let bit = decoded_bit(s, p_one);
    dec_renorm(
        DecState {
            low: narrow_low(s.low, s.high, p_one, bit),
            high: narrow_high(s.low, s.high, p_one, bit),
            out: s.out.push(bit),
            ..s
        },
        code,
        n,
    )
}

/// The decoder after `len` bits were decoded from the first `n` bytes of `code`.
pub open spec fn decode_model<F: Fn(&ContextContent) -> u32>(
    f: F,
    k: usize,
    code: Seq<u8>,
    n: int,
    len: nat,
) -> DecState
    decreases len,
{
    if len == 0 {
        dec_start(code, n)
    } else {
        let s = decode_model(f, k, code, n, (len - 1) as nat);
        dec_step(s, estimate(f, context_at(k, s.out)) as int, code, n)
    }
}

} // verus!
