//! Checked entry points for the probability estimator.

use vstd::prelude::*;
use crate::probability::{
    example_get_probability_fixed, laplace_estimate, lemma_estimate_strictly_increasing,
    ContextContent, FIXED_SCALE, MAX_CONTEXT_BITS,
};

verus! {

/// The estimator, with its range stated in the contract.
pub fn verified_get_probability_fixed(context: &ContextContent) -> (ret: u32)
    requires
        context.valid(),
    ensures
        ret == laplace_estimate(context.context_length as int, context.count_ones as int),
        1 <= ret < FIXED_SCALE,
{
    example_get_probability_fixed(context)
}

/// Compares the estimates of two contexts of the same length; the one with
/// fewer ones always has the smaller estimate.
pub fn prove_monotonicity(context1: &ContextContent, context2: &ContextContent) -> (ret: bool)
    requires
        context1.context_length == context2.context_length,
        context1.count_ones < context2.count_ones,
        context2.valid(),
        context2.context_length <= MAX_CONTEXT_BITS,
    ensures
        ret == (laplace_estimate(context1.context_length as int, context1.count_ones as int)
            < laplace_estimate(context2.context_length as int, context2.count_ones as int)),
        ret,
{
    let prob1 = verified_get_probability_fixed(context1);
    let prob2 = verified_get_probability_fixed(context2);
    proof {
        lemma_estimate_strictly_increasing(
            context1.context_length as int,
            context1.count_ones as int,
            context2.count_ones as int,
        );
    }
    prob1 < prob2
}

} // verus!
