//! Fixed-point probability estimation from context statistics.

use vstd::prelude::*;

verus! {

/// Fixed-point scaling factor: probabilities are integers in `(0, FIXED_SCALE)`.
pub const FIXED_SCALE: u32 = 65536;

/// Largest context window, in bits, that the coder accepts.
pub const MAX_CONTEXT_BITS: usize = 2048;

/// Statistics of the context window handed to a probability estimator.
#[derive(Debug, Clone, Copy, PartialEq, Eq, Structural)]
pub struct ContextContent {
    pub context_length: usize,
    pub count_ones: u32,
}

impl ContextContent {
    /// The statistics are consistent: no more ones than bits in the window.
    pub open spec fn valid(&self) -> bool {
        self.count_ones <= self.context_length
    }
}

/// Laplace-smoothed estimate of the probability that the next bit is one,
/// rounded to nearest and clamped to `[1, FIXED_SCALE - 1]`; a non-empty
/// all-ones window is pinned to `FIXED_SCALE - 1`.
pub open spec fn laplace_estimate(context_length: int, count_ones: int) -> int {
    if count_ones == context_length && context_length > 0 {
        FIXED_SCALE - 1
    } else {
        let d = context_length + 2;
        let raw = ((count_ones + 1) * FIXED_SCALE + d / 2) / d;
        if raw < 1 {
            1
        } else if raw > FIXED_SCALE - 1 {
            FIXED_SCALE - 1
        } else {
            raw
        }
    }
}

/// Fixed-point probability of a one bit given the context statistics.
pub fn example_get_probability_fixed(context_content: &ContextContent) -> (ret: u32)
    requires
        context_content.valid(),
    ensures
        ret == laplace_estimate(
            context_content.context_length as int,
            context_content.count_ones as int,
        ),
        1 <= ret < FIXED_SCALE,
{
    let context_length = context_content.context_length;
    let count_ones = context_content.count_ones;
    if count_ones as usize == context_length && context_length > 0 {
        FIXED_SCALE - 1
    } else {
        let numerator: u128 = count_ones as u128 + 1;
        let denominator: u128 = context_length as u128 + 2;
        assert(numerator * (FIXED_SCALE as u128) <= 0x1_0000_0000 * 0x1_0000) by (nonlinear_arith)
            requires
                numerator <= 0x1_0000_0000,
        ;
        let prob: u128 = (numerator * (FIXED_SCALE as u128) + denominator / 2) / denominator;
        if prob < 1 {
            1
        } else if prob > (FIXED_SCALE - 1) as u128 {
            FIXED_SCALE - 1
        } else {
            prob as u32
        }
    }
}

/// Over valid statistics the estimate never reaches 0 or `FIXED_SCALE`.
pub proof fn lemma_estimate_bounds(context_length: int, count_ones: int)
    requires
        0 <= count_ones <= context_length,
    ensures
        1 <= laplace_estimate(context_length, count_ones) <= FIXED_SCALE - 1,
{
}

/// Below an all-ones window the rounded ratio already lies strictly inside
/// `[1, FIXED_SCALE - 1)`, so the clamp never applies.
proof fn lemma_unclamped_range(n: int, c: int)
    requires
        0 <= c < n <= MAX_CONTEXT_BITS,
    ensures
        1 <= ((c + 1) * FIXED_SCALE + (n + 2) / 2) / (n + 2) < FIXED_SCALE - 1,
{
    let d = n + 2;
    let h = d / 2;
    let a = (c + 1) * FIXED_SCALE + h;
    assert(a >= d) by (nonlinear_arith)
        requires
            a == (c + 1) * FIXED_SCALE + h,
            c >= 0,
            h >= 0,
            d <= MAX_CONTEXT_BITS + 2,
    ;
    assert(a < (FIXED_SCALE - 1) * d) by (nonlinear_arith)
        requires
            a == (c + 1) * FIXED_SCALE + h,
            c + 1 <= n,
            d == n + 2,
            h <= d,
            n <= MAX_CONTEXT_BITS,
    ;
    assert(a / d >= 1) by (nonlinear_arith)
        requires
            a >= d,
            d > 0,
    ;
    assert(a / d < FIXED_SCALE - 1) by (nonlinear_arith)
        requires
            a < (FIXED_SCALE - 1) * d,
            d > 0,
    ;
}

/// One more one in the window raises the rounded ratio by at least one.
proof fn lemma_unclamped_step(n: int, c1: int, c2: int)
    requires
        0 <= c1 < c2 < n <= MAX_CONTEXT_BITS,
    ensures
        ((c1 + 1) * FIXED_SCALE + (n + 2) / 2) / (n + 2) < ((c2 + 1) * FIXED_SCALE + (n + 2)
            / 2) / (n + 2),
{
    let d = n + 2;
    let h = d / 2;
    let a1 = (c1 + 1) * FIXED_SCALE + h;
    let a2 = (c2 + 1) * FIXED_SCALE + h;
    assert(a2 >= a1 + d) by (nonlinear_arith)
        requires
            a1 == (c1 + 1) * FIXED_SCALE + h,
            a2 == (c2 + 1) * FIXED_SCALE + h,
            c2 >= c1 + 1,
            d <= MAX_CONTEXT_BITS + 2,
    ;
    assert(a1 / d < a2 / d) by (nonlinear_arith)
        requires
            a2 >= a1 + d,
            a1 >= 0,
            d > 0,
    ;
}

/// For a fixed window length within the coder's limit, the estimate
/// strictly increases with the number of ones in the window.
pub proof fn lemma_estimate_strictly_increasing(context_length: int, c1: int, c2: int)
    requires
        0 <= c1 < c2 <= context_length <= MAX_CONTEXT_BITS,
    ensures
        laplace_estimate(context_length, c1) < laplace_estimate(context_length, c2),
{
    lemma_unclamped_range(context_length, c1);
    if c2 < context_length {
        lemma_unclamped_range(context_length, c2);
        lemma_unclamped_step(context_length, c1, c2);
    }
}

} // verus!
