//! Context-adaptive binary arithmetic coding.
//!
//! `arithmetic_encode` compresses a bit sequence into bytes by narrowing an
//! interval according to a probability estimate conditioned on a sliding
//! window of recent bits; `arithmetic_decode` reverses it. Both are proved to
//! follow the state machines of `model`, and `correctness` proves that
//! decoding an encoder's output returns the encoded bits.

pub mod arithmetic_coding;
pub mod bits;
pub mod context;
pub mod correctness;
pub mod model;
pub mod probability;
pub mod verification;

pub use arithmetic_coding::{arithmetic_decode, arithmetic_encode, ArithmeticCodingError};
pub use probability::{example_get_probability_fixed, ContextContent};
