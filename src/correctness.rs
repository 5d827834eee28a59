//! Correctness of the coder: decoding an encoded bit sequence gives the
//! sequence back, and inputs of realistic length are always coded.
//!
//! The encoder's state stands for an interval of absolute positions: with
//! `out` emitted and `pending` bits deferred, position `base + low` up to
//! `base + high`, in units of `2^-(out.len() + pending + 32)`. Every
//! rescaling doubles both ends, and narrowing only shrinks the interval, so
//! the coded stream, which lies in the final interval, lies in every earlier
//! one. The decoder's value register is the stream's prefix minus `base`,
//! which makes each decoded bit the encoded one.

use vstd::prelude::*;
use vstd::arithmetic::power2::{lemma2_to64, lemma_pow2_adds, lemma_pow2_unfold, pow2};
use crate::arithmetic_coding::{
    lemma_decoded_bit_position, lemma_enc_overflow_persists, lemma_split_bounds, settled,
};
use crate::bits::{bits_of_bytes, pad_to_bytes};
use crate::context::{lemma_count_true_bound, lemma_ring_window_len, ring_window};
use crate::model::{
    code_bit, context_at, dec_renorm, dec_shift, decode_model, decoded_bit, emit_run, enc_finish,
    enc_prefix, enc_renorm, enc_start, encode_model, estimate, estimator_ok, narrow_high,
    narrow_low, DecState, EncState, HALF, QUARTER, THREE_QUARTER, TOTAL,
};
use crate::probability::{ContextContent, FIXED_SCALE};

verus! {

/// Longest input, in bits, that the encoder is guaranteed to code.
pub const MAX_CODED_BITS: u64 = 0x0400_0000_0000_0000;

/// The integer whose binary digits, most significant first, are `s`.
pub open spec fn val(s: Seq<bool>) -> int
    decreases s.len(),
{
    if s.len() == 0 {
        0
    } else {
        2 * val(s.drop_last()) + if s.last() {
            1int
        } else {
            0int
        }
    }
}

/// Number of rescalings the encoder has gone through.
pub open spec fn shifts(e: EncState) -> int {
    e.out.len() + e.pending
}

/// Absolute position of the encoder's interval origin.
pub open spec fn base(e: EncState) -> int {
    val(e.out) * pow2((e.pending + 32) as nat) + (pow2(e.pending as nat) - 1) * HALF
}

/// Encoder states the rescaling works on.
pub open spec fn enc_valid(e: EncState) -> bool {
    &&& 0 <= e.low <= e.high < TOTAL
    &&& e.pending >= 0
    &&& !e.overflow
}

/// The first `len` bits of the coded stream as an integer.
pub open spec fn stream_prefix(code: Seq<u8>, n: int, len: nat) -> int {
    val(Seq::new(len, |j: int| code_bit(code, n, j)))
}

/// The coded stream lies in the encoder's interval.
pub open spec fn contains_code(e: EncState, code: Seq<u8>, n: int) -> bool {
    let p = stream_prefix(code, n, (shifts(e) + 32) as nat);
    base(e) + e.low <= p <= base(e) + e.high
}

/// The decoder has the encoder's interval and has read as many bits as the
/// encoder has rescaled, its value register being the stream prefix
/// measured from the encoder's origin.
pub open spec fn corresponds(e: EncState, d: DecState, code: Seq<u8>, n: int) -> bool {
    let s = shifts(e) + 32;
    &&& d.low == e.low
    &&& d.high == e.high
    &&& d.value == stream_prefix(code, n, s as nat) - base(e)
    &&& d.pos == if s < 8 * n {
        s
    } else {
        8 * n
    }
}

/// Appending digits shifts the value left by their count.
pub proof fn lemma_val_append(a: Seq<bool>, b: Seq<bool>)
    ensures
        val(a + b) == val(a) * pow2(b.len()) + val(b),
    decreases b.len(),
{
    if b.len() == 0 {
        assert(a + b =~= a);
        lemma2_to64();
        assert(val(b) == 0);
        assert(val(a) * pow2(0) == val(a));
    } else {
        assert((a + b).drop_last() =~= a + b.drop_last());
        assert((a + b).last() == b.last());
        lemma_val_append(a, b.drop_last());
        lemma_pow2_unfold(b.len());
        let p = pow2((b.len() - 1) as nat);
        assert(2 * (val(a) * p + val(b.drop_last())) == val(a) * (2 * p) + 2 * val(b.drop_last()))
            by (nonlinear_arith);
    }
}

/// A run of zeros is 0 and a run of `m` ones is `2^m - 1`.
pub proof fn lemma_val_const(m: nat, x: bool)
    ensures
        val(Seq::new(m, |j: int| x)) == if x {
            pow2(m) - 1
        } else {
            0
        },
    decreases m,
{
    if m == 0 {
        lemma2_to64();
    } else {
        assert(Seq::new(m, |j: int| x).drop_last() =~= Seq::new((m - 1) as nat, |j: int| x));
        lemma_val_const((m - 1) as nat, x);
        lemma_pow2_unfold(m);
    }
}

/// The value of a resolved bit followed by its complement `f` times.
pub proof fn lemma_val_emit_run(b: bool, f: nat)
    ensures
        emit_run(b, f as int).len() == f + 1,
        val(emit_run(b, f as int)) == if b {
            pow2(f) as int
        } else {
            pow2(f) - 1
        },
{
    lemma_val_append(seq![b], Seq::new(f, |j: int| !b));
    lemma_val_const(f, !b);
    assert(seq![b].drop_last() =~= Seq::<bool>::empty());
    assert(val(Seq::<bool>::empty()) == 0);
    assert(val(seq![b]) == if b {
        1int
    } else {
        0int
    });
    assert(seq![b] + Seq::new(f, |j: int| !b) =~= emit_run(b, f as int));
    let p = pow2(f) as int;
    let v1 = val(seq![b]);
    assert(v1 * p == if b {
        p
    } else {
        0
    }) by (nonlinear_arith)
        requires
            v1 == if b {
                1int
            } else {
                0int
            },
    ;
}

/// One more stream bit doubles the prefix and adds the bit.
pub proof fn lemma_stream_step(code: Seq<u8>, n: int, len: nat)
    ensures
        stream_prefix(code, n, len + 1) == 2 * stream_prefix(code, n, len) + if code_bit(
            code,
            n,
            len as int,
        ) {
            1int
        } else {
            0int
        },
{
    assert(Seq::new(len + 1, |j: int| code_bit(code, n, j)).drop_last() =~= Seq::new(
        len,
        |j: int| code_bit(code, n, j),
    ));
}

/// Rescaling settles the interval, and the stream lies in the interval
/// before rescaling when it lies in the one after.
pub proof fn lemma_renorm_enc(e: EncState, code: Seq<u8>, n: int)
    requires
        enc_valid(e),
        !enc_renorm(e).overflow,
    ensures
        settled(enc_renorm(e).low, enc_renorm(e).high),
        enc_valid(enc_renorm(e)),
        contains_code(enc_renorm(e), code, n) ==> contains_code(e, code, n),
    decreases TOTAL - (e.high - e.low),
{
    let f = e.pending;
    let s = shifts(e) + 32;
    if e.high < HALF || e.low >= HALF || (e.low >= QUARTER && e.high < THREE_QUARTER) {
        let c: int = if e.high < HALF {
            0
        } else if e.low >= HALF {
            HALF as int
        } else {
            QUARTER as int
        };
        let e2 = if e.high < HALF {
            EncState {
                low: 2 * e.low,
                high: 2 * e.high + 1,
                pending: 0,
                out: e.out + emit_run(false, e.pending),
                overflow: false,
            }
        } else if e.low >= HALF {
            EncState {
                low: 2 * (e.low - HALF),
                high: 2 * (e.high - HALF) + 1,
                pending: 0,
                out: e.out + emit_run(true, e.pending),
                overflow: false,
            }
        } else {
            EncState {
                low: 2 * (e.low - QUARTER),
                high: 2 * (e.high - QUARTER) + 1,
                pending: e.pending + 1,
                out: e.out,
                overflow: false,
            }
        };
        assert(enc_renorm(e) == enc_renorm(e2));
        lemma_renorm_step_base(e, e2, c);
        lemma_renorm_enc(e2, code, n);
        if contains_code(enc_renorm(e), code, n) {
            lemma_stream_step(code, n, s as nat);
        }
    }
}

/// One rescaling step moves the origin to twice the old origin plus twice
/// the amount subtracted from the bounds.
pub proof fn lemma_renorm_step_base(e: EncState, e2: EncState, c: int)
    requires
        e.pending >= 0,
        (c == 0 && e2 == EncState {
            low: 2 * e.low,
            high: 2 * e.high + 1,
            pending: 0,
            out: e.out + emit_run(false, e.pending),
            overflow: false,
        }) || (c == HALF && e2 == EncState {
            low: 2 * (e.low - HALF),
            high: 2 * (e.high - HALF) + 1,
            pending: 0,
            out: e.out + emit_run(true, e.pending),
            overflow: false,
        }) || (c == QUARTER && e2 == EncState {
            low: 2 * (e.low - QUARTER),
            high: 2 * (e.high - QUARTER) + 1,
            pending: e.pending + 1,
            out: e.out,
            overflow: false,
        }),
    ensures
        base(e2) == 2 * base(e) + 2 * c,
        shifts(e2) == shifts(e) + 1,
{
    let f = e.pending as nat;
    let p = pow2(f) as int;
    let v = val(e.out);
    lemma2_to64();
    lemma_pow2_adds(f, 32);
    lemma_pow2_adds(f + 1, 32);
    lemma_pow2_unfold(f + 1);
    assert(pow2(f + 32) == p * 0x1_0000_0000);
    assert(pow2(f + 33) == 2 * p * 0x1_0000_0000) by {
        assert(pow2(f + 1 + 32) == pow2(f + 1) * pow2(32));
    }
    if c == QUARTER {
        assert(base(e2) == v * pow2(f + 33) + (pow2(f + 1) - 1) * HALF);
        assert(v * (2 * p * 0x1_0000_0000) + (2 * p - 1) * HALF == 2 * (v * (p * 0x1_0000_0000)
            + (p - 1) * HALF) + 2 * QUARTER) by (nonlinear_arith);
    } else {
        let b = c == HALF;
        lemma_val_emit_run(b, f);
        lemma_val_append(e.out, emit_run(b, f as int));
        assert(base(e2) == val(e2.out) * pow2(32));
        assert(val(e2.out) == v * (2 * p) + if b {
            p
        } else {
            p - 1
        });
        assert((v * (2 * p) + if b {
            p
        } else {
            p - 1
        }) * 0x1_0000_0000 == 2 * (v * (p * 0x1_0000_0000) + (p - 1) * HALF) + 2 * c)
            by (nonlinear_arith)
            requires
                c == if b {
                    HALF as int
                } else {
                    0
                },
        ;
    }
}

/// The decoder's rescalings follow the encoder's, and keep it in step.
pub proof fn lemma_renorm_dec(e: EncState, d: DecState, code: Seq<u8>, n: int)
    requires
        enc_valid(e),
        !enc_renorm(e).overflow,
        corresponds(e, d, code, n),
        n >= 0,
    ensures
        corresponds(enc_renorm(e), dec_renorm(d, code, n), code, n),
        dec_renorm(d, code, n).out == d.out,
    decreases TOTAL - (e.high - e.low),
{
    let s = shifts(e) + 32;
    if e.high < HALF || e.low >= HALF || (e.low >= QUARTER && e.high < THREE_QUARTER) {
        let c: int = if e.high < HALF {
            0
        } else if e.low >= HALF {
            HALF as int
        } else {
            QUARTER as int
        };
        let e2 = if e.high < HALF {
            EncState {
                low: 2 * e.low,
                high: 2 * e.high + 1,
                pending: 0,
                out: e.out + emit_run(false, e.pending),
                overflow: false,
            }
        } else if e.low >= HALF {
            EncState {
                low: 2 * (e.low - HALF),
                high: 2 * (e.high - HALF) + 1,
                pending: 0,
                out: e.out + emit_run(true, e.pending),
                overflow: false,
            }
        } else {
            EncState {
                low: 2 * (e.low - QUARTER),
                high: 2 * (e.high - QUARTER) + 1,
                pending: e.pending + 1,
                out: e.out,
                overflow: false,
            }
        };
        let d1 = DecState { low: d.low - c, high: d.high - c, value: d.value - c, ..d };
        let d2 = dec_shift(d1, code, n);
        assert(enc_renorm(e) == enc_renorm(e2));
        if e.high < HALF {
            assert(d1 == d);
        }
        assert(dec_renorm(d, code, n) == dec_renorm(d2, code, n));
        lemma_renorm_step_base(e, e2, c);
        lemma_stream_step(code, n, s as nat);
        assert(code_bit(code, n, d.pos) == code_bit(code, n, s));
        assert(corresponds(e2, d2, code, n));
        lemma_renorm_dec(e2, d2, code, n);
    }
}

/// Reading the first bits of the stream fills the value register with
/// their prefix.
pub proof fn lemma_fill_prefix(code: Seq<u8>, n: int, count: nat)
    requires
        n >= 0,
    ensures
        crate::model::dec_fill(code, n, count) == (
            stream_prefix(code, n, count),
            if count < 8 * n {
                count as int
            } else {
                8 * n
            },
        ),
    decreases count,
{
    if count == 0 {
        assert(Seq::new(0, |j: int| code_bit(code, n, j)) =~= Seq::<bool>::empty());
    } else {
        let c1 = (count - 1) as nat;
        lemma_fill_prefix(code, n, c1);
        lemma_stream_step(code, n, c1);
        let p = if c1 < 8 * n {
            c1 as int
        } else {
            8 * n
        };
        assert(code_bit(code, n, p) == code_bit(code, n, c1 as int));
    }
}

/// A valid estimator's estimate for any history lies within bounds.
pub proof fn lemma_estimate_range<F: Fn(&ContextContent) -> u32>(
    f: F,
    k: usize,
    history: Seq<bool>,
)
    requires
        estimator_ok(f, k),
    ensures
        1 <= estimate(f, context_at(k, history)) < FIXED_SCALE,
{
    let c = context_at(k, history);
    lemma_ring_window_len(k as nat, history);
    lemma_count_true_bound(ring_window(k as nat, history));
    assert(c.count_ones <= k);
    assert(call_requires(f, (&c,)));
    if exists|r: u32| call_ensures(f, (&c,), r) {
        assert(call_ensures(f, (&c,), estimate(f, c)));
    }
}

/// Narrowing a settled interval gives a valid, smaller one.
pub proof fn lemma_narrow(e: EncState, p_one: int, bit: bool)
    requires
        enc_valid(e),
        settled(e.low, e.high),
        1 <= p_one < FIXED_SCALE,
    ensures
        ({
            let m = EncState {
                low: narrow_low(e.low, e.high, p_one, bit),
                high: narrow_high(e.low, e.high, p_one, bit),
                ..e
            };
            &&& enc_valid(m)
            &&& e.low <= m.low
            &&& m.high <= e.high
            &&& base(m) == base(e)
            &&& shifts(m) == shifts(e)
        }),
{
    lemma_split_bounds(e.high - e.low + 1, FIXED_SCALE - p_one);
}

/// Before the final flush the encoder's interval is valid and settled.
pub proof fn lemma_prefix_valid<F: Fn(&ContextContent) -> u32>(f: F, k: usize, bits: Seq<bool>)
    requires
        estimator_ok(f, k),
        !enc_prefix(f, k, bits).overflow,
    ensures
        enc_valid(enc_prefix(f, k, bits)),
        settled(enc_prefix(f, k, bits).low, enc_prefix(f, k, bits).high),
    decreases bits.len(),
{
    if bits.len() > 0 {
        let prev = bits.drop_last();
        let e = enc_prefix(f, k, prev);
        let p = estimate(f, context_at(k, prev)) as int;
        lemma_prefix_valid(f, k, prev);
        lemma_estimate_range(f, k, prev);
        lemma_narrow(e, p, bits.last());
        let m = EncState {
            low: narrow_low(e.low, e.high, p, bits.last()),
            high: narrow_high(e.low, e.high, p, bits.last()),
            ..e
        };
        lemma_renorm_enc(m, Seq::empty(), 0);
    } else {
        lemma2_to64();
    }
}

/// The coded stream lies in the interval of the encoder before its flush.
pub proof fn lemma_final_contains(e: EncState, code: Seq<u8>)
    requires
        enc_valid(e),
        settled(e.low, e.high),
        !enc_finish(e).overflow,
        bits_of_bytes(code) == pad_to_bytes(enc_finish(e).out),
    ensures
        contains_code(e, code, code.len() as int),
{
    let n = code.len() as int;
    let f = e.pending as nat;
    let b = !(e.low < QUARTER);
    let tail = emit_run(b, (f + 1) as int);
    let out = enc_finish(e).out;
    let s = shifts(e);
    assert(out == e.out + tail);
    lemma_val_emit_run(b, f + 1);
    assert(out.len() == s + 2);
    let pre = Seq::new((s + 32) as nat, |j: int| code_bit(code, n, j));
    assert(pre =~= out + Seq::new(30, |j: int| false)) by {
        assert forall|j: int| 0 <= j < s + 32 implies pre[j] == (out + Seq::new(
            30,
            |i: int| false,
        ))[j] by {
            assert(bits_of_bytes(code).len() == 8 * n);
            assert(pad_to_bytes(out).len() == 8 * n);
            if j < out.len() {
                assert(pad_to_bytes(out)[j] == out[j]);
                assert(code_bit(code, n, j) == out[j]);
            } else if j < 8 * n {
                assert(pad_to_bytes(out)[j] == false);
                assert(code_bit(code, n, j) == false);
            } else {
                assert(code_bit(code, n, j) == false);
            }
        }
    }
    lemma_val_append(out, Seq::new(30, |j: int| false));
    lemma_val_const(30, false);
    lemma_val_append(e.out, tail);
    let p = pow2(f) as int;
    let v = val(e.out);
    lemma2_to64();
    lemma_pow2_adds(f, 32);
    lemma_pow2_adds(f, 2);
    lemma_pow2_unfold(f + 1);
    assert(pow2(f + 32) == p * 0x1_0000_0000);
    assert(pow2(f + 2) == 4 * p);
    let w = stream_prefix(code, n, (s + 32) as nat);
    assert(w == (v * (4 * p) + if b {
        2 * p
    } else {
        2 * p - 1
    }) * 0x4000_0000);
    assert(base(e) == v * (p * 0x1_0000_0000) + (p - 1) * HALF);
    assert(w - base(e) == if b {
        HALF as int
    } else {
        QUARTER as int
    }) by (nonlinear_arith)
        requires
            w == (v * (4 * p) + if b {
                2 * p
            } else {
                2 * p - 1
            }) * 0x4000_0000,
            base(e) == v * (p * 0x1_0000_0000) + (p - 1) * HALF,
    ;
}

/// When the stream lies in the final interval it lies in the interval of
/// every earlier prefix.
pub proof fn lemma_contains_prefixes<F: Fn(&ContextContent) -> u32>(
    f: F,
    k: usize,
    bits: Seq<bool>,
    code: Seq<u8>,
    n: int,
    t: int,
)
    requires
        estimator_ok(f, k),
        !enc_prefix(f, k, bits).overflow,
        contains_code(enc_prefix(f, k, bits), code, n),
        0 <= t <= bits.len(),
    ensures
        contains_code(enc_prefix(f, k, bits.take(t)), code, n),
    decreases bits.len() - t,
{
    if t == bits.len() {
        assert(bits.take(t) =~= bits);
    } else {
        lemma_contains_prefixes(f, k, bits, code, n, t + 1);
        let h = bits.take(t);
        assert(bits.take(t + 1).drop_last() =~= h);
        let e = enc_prefix(f, k, h);
        if e.overflow {
            lemma_enc_overflow_persists(f, k, bits, t);
        }
        let p = estimate(f, context_at(k, h)) as int;
        lemma_prefix_valid(f, k, h);
        lemma_estimate_range(f, k, h);
        let bit = bits.take(t + 1).last();
        lemma_narrow(e, p, bit);
        let m = EncState {
            low: narrow_low(e.low, e.high, p, bit),
            high: narrow_high(e.low, e.high, p, bit),
            ..e
        };
        assert(enc_prefix(f, k, bits.take(t + 1)) == enc_renorm(m));
        if enc_prefix(f, k, bits.take(t + 1)).overflow {
            lemma_enc_overflow_persists(f, k, bits, t + 1);
        }
        lemma_renorm_enc(m, code, n);
    }
}

/// The decoder, run on the encoder's output, keeps in step with the encoder
/// and has decoded the encoded bits so far.
pub proof fn lemma_decoder_follows<F: Fn(&ContextContent) -> u32>(
    f: F,
    k: usize,
    bits: Seq<bool>,
    code: Seq<u8>,
    t: int,
)
    requires
        estimator_ok(f, k),
        !enc_prefix(f, k, bits).overflow,
        contains_code(enc_prefix(f, k, bits), code, code.len() as int),
        0 <= t <= bits.len(),
    ensures
        corresponds(
            enc_prefix(f, k, bits.take(t)),
            decode_model(f, k, code, code.len() as int, t as nat),
            code,
            code.len() as int,
        ),
        decode_model(f, k, code, code.len() as int, t as nat).out == bits.take(t),
    decreases t,
{
    let n = code.len() as int;
    if t == 0 {
        assert(bits.take(0) =~= Seq::<bool>::empty());
        lemma_fill_prefix(code, n, 32);
        lemma2_to64();
        assert(val(Seq::<bool>::empty()) == 0);
        assert(base(enc_start()) == 0);
    } else {
        lemma_decoder_follows(f, k, bits, code, t - 1);
        let h = bits.take(t - 1);
        assert(bits.take(t).drop_last() =~= h);
        let bit = bits.take(t).last();
        assert(bits.take(t) =~= h.push(bit));
        let e = enc_prefix(f, k, h);
        let d = decode_model(f, k, code, n, (t - 1) as nat);
        if e.overflow {
            lemma_enc_overflow_persists(f, k, bits, t - 1);
        }
        let p = estimate(f, context_at(k, h)) as int;
        lemma_prefix_valid(f, k, h);
        lemma_estimate_range(f, k, h);
        lemma_narrow(e, p, bit);
        let m = EncState {
            low: narrow_low(e.low, e.high, p, bit),
            high: narrow_high(e.low, e.high, p, bit),
            ..e
        };
        assert(enc_prefix(f, k, bits.take(t)) == enc_renorm(m));
        if enc_prefix(f, k, bits.take(t)).overflow {
            lemma_enc_overflow_persists(f, k, bits, t);
        }
        lemma_contains_prefixes(f, k, bits, code, n, t);
        lemma_renorm_enc(m, code, n);
        lemma_decoded_bit_position(e.low, e.high, d.value, p);
        assert(decoded_bit(d, p) == decoded_bit(
            DecState { low: e.low, high: e.high, value: d.value, pos: 0, out: Seq::empty() },
            p,
        ));
        assert(decoded_bit(d, p) == bit);
        let dm = DecState {
            low: narrow_low(d.low, d.high, p, bit),
            high: narrow_high(d.low, d.high, p, bit),
            out: d.out.push(bit),
            ..d
        };
        assert(decode_model(f, k, code, n, t as nat) == dec_renorm(dm, code, n));
        lemma_renorm_dec(m, dm, code, n);
    }
}

/// Decoding the encoder's output with the same bit count, context length and
/// estimator gives back the encoded bits, whenever the encoder succeeds and
/// the estimator answers every query within the probability bounds.
pub proof fn lemma_round_trip<F: Fn(&ContextContent) -> u32>(
    f: F,
    k: usize,
    bits: Seq<bool>,
    code: Seq<u8>,
)
    requires
        estimator_ok(f, k),
        !encode_model(f, k, bits).overflow,
        bits_of_bytes(code) == pad_to_bytes(encode_model(f, k, bits).out),
    ensures
        decode_model(f, k, code, code.len() as int, bits.len()).out == bits,
{
    let e = enc_prefix(f, k, bits);
    assert(!e.overflow);
    lemma_prefix_valid(f, k, bits);
    lemma_final_contains(e, code);
    lemma_decoder_follows(f, k, bits, code, bits.len() as int);
    assert(bits.take(bits.len() as int) =~= bits);
}

/// An interval of at least `2^(32 - j)` positions settles within `j`
/// rescalings, none of which overflows the deferred-bit counter while the
/// rescaling count stays below its limit.
pub proof fn lemma_renorm_shift_bound(e: EncState, j: nat)
    requires
        enc_valid(e),
        j <= 32,
        e.high - e.low + 1 >= pow2((32 - j) as nat),
        shifts(e) + j < u64::MAX,
    ensures
        !enc_renorm(e).overflow,
        shifts(enc_renorm(e)) <= shifts(e) + j,
    decreases TOTAL - (e.high - e.low),
{
    lemma2_to64();
    if e.high < HALF || e.low >= HALF || (e.low >= QUARTER && e.high < THREE_QUARTER) {
        assert(j >= 1);
        lemma_pow2_unfold((32 - j + 1) as nat);
        assert((32 - (j - 1)) as nat == (32 - j + 1) as nat);
        let c: int = if e.high < HALF {
            0
        } else if e.low >= HALF {
            HALF as int
        } else {
            QUARTER as int
        };
        let e2 = if e.high < HALF {
            EncState {
                low: 2 * e.low,
                high: 2 * e.high + 1,
                pending: 0,
                out: e.out + emit_run(false, e.pending),
                overflow: false,
            }
        } else if e.low >= HALF {
            EncState {
                low: 2 * (e.low - HALF),
                high: 2 * (e.high - HALF) + 1,
                pending: 0,
                out: e.out + emit_run(true, e.pending),
                overflow: false,
            }
        } else {
            EncState {
                low: 2 * (e.low - QUARTER),
                high: 2 * (e.high - QUARTER) + 1,
                pending: e.pending + 1,
                out: e.out,
                overflow: false,
            }
        };
        assert(enc_renorm(e) == enc_renorm(e2));
        lemma_renorm_step_base(e, e2, c);
        lemma_renorm_shift_bound(e2, (j - 1) as nat);
    }
}

/// Coding one bit narrows a settled interval to no fewer than `2^14` positions.
pub proof fn lemma_narrow_width(e: EncState, p_one: int, bit: bool)
    requires
        enc_valid(e),
        settled(e.low, e.high),
        1 <= p_one < FIXED_SCALE,
    ensures
        narrow_high(e.low, e.high, p_one, bit) - narrow_low(e.low, e.high, p_one, bit) + 1 >= 0x4000,
{
    let r = e.high - e.low + 1;
    let p_zero = FIXED_SCALE - p_one;
    lemma_split_bounds(r, p_zero);
    let split = r * p_zero / (FIXED_SCALE as int);
    assert(split >= 0x4000) by (nonlinear_arith)
        requires
            split == r * p_zero / (FIXED_SCALE as int),
            r > QUARTER,
            p_zero >= 1,
    ;
    assert(r - split >= 0x4000) by (nonlinear_arith)
        requires
            split == r * p_zero / (FIXED_SCALE as int),
            r > QUARTER,
            p_zero <= FIXED_SCALE - 1,
    ;
}

/// After `t` coded bits the encoder has rescaled at most `18 t` times, and
/// its deferred-bit counter has not overflowed.
pub proof fn lemma_prefix_shifts<F: Fn(&ContextContent) -> u32>(f: F, k: usize, bits: Seq<bool>)
    requires
        estimator_ok(f, k),
        18 * bits.len() < u64::MAX,
    ensures
        !enc_prefix(f, k, bits).overflow,
        shifts(enc_prefix(f, k, bits)) <= 18 * bits.len(),
    decreases bits.len(),
{
    if bits.len() > 0 {
        let prev = bits.drop_last();
        lemma_prefix_shifts(f, k, prev);
        let e = enc_prefix(f, k, prev);
        let p = estimate(f, context_at(k, prev)) as int;
        lemma_prefix_valid(f, k, prev);
        lemma_estimate_range(f, k, prev);
        lemma_narrow(e, p, bits.last());
        lemma_narrow_width(e, p, bits.last());
        let m = EncState {
            low: narrow_low(e.low, e.high, p, bits.last()),
            high: narrow_high(e.low, e.high, p, bits.last()),
            ..e
        };
        lemma2_to64();
        lemma_renorm_shift_bound(m, 18);
    }
}

/// Inputs of up to `MAX_CODED_BITS` bits never overflow the encoder's
/// deferred-bit counter.
pub proof fn lemma_encoder_capacity<F: Fn(&ContextContent) -> u32>(
    f: F,
    k: usize,
    bits: Seq<bool>,
)
    requires
        estimator_ok(f, k),
        bits.len() <= MAX_CODED_BITS,
    ensures
        !encode_model(f, k, bits).overflow,
{
    lemma_prefix_shifts(f, k, bits);
}

} // verus!
