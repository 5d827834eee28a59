use arith_coder::probability::FIXED_SCALE;
use arith_coder::verification::{prove_monotonicity, verified_get_probability_fixed};
use arith_coder::{example_get_probability_fixed, ContextContent};

#[test]
fn test_probability_clamping_low() {
    let context = ContextContent {
        context_length: 4,
        count_ones: 0,
    };
    let prob = example_get_probability_fixed(&context);
    assert_eq!(prob, 10923);
}

#[test]
fn test_probability_clamping_high() {
    let context = ContextContent {
        context_length: 1,
        count_ones: 1,
    };
    let prob = example_get_probability_fixed(&context);
    assert_eq!(prob, FIXED_SCALE - 1);
}

#[test]
fn test_probability_normal() {
    let context = ContextContent {
        context_length: 4,
        count_ones: 2,
    };
    let prob = example_get_probability_fixed(&context);
    assert_eq!(prob, 32768);
}

#[test]
fn test_probability_bounds() {
    for context_length in 1..=100 {
        for count_ones in 0..=context_length {
            let context = ContextContent {
                context_length,
                count_ones: count_ones as u32,
            };
            let prob = example_get_probability_fixed(&context);
            assert!(
                (1..FIXED_SCALE).contains(&prob),
                "Probability out of bounds for context: {:?}",
                context
            );
        }
    }
}

#[test]
fn test_probability_monotonicity() {
    for context_length in 1..=10 {
        let mut prev_prob = 0;
        for count_ones in 0..=context_length {
            let context = ContextContent {
                context_length,
                count_ones: count_ones as u32,
            };
            let prob = example_get_probability_fixed(&context);
            assert!(
                prob > prev_prob,
                "Probability not monotonically increasing for context: {:?}",
                context
            );
            prev_prob = prob;
        }
    }
}

#[test]
fn test_monotonicity() {
    for context_length in 1..=10 {
        for count_ones in 0..context_length {
            let context1 = ContextContent {
                context_length,
                count_ones: count_ones as u32,
            };
            let context2 = ContextContent {
                context_length,
                count_ones: (count_ones + 1) as u32,
            };
            assert!(
                prove_monotonicity(&context1, &context2),
                "Monotonicity violated for {:?} and {:?}",
                context1,
                context2
            );
        }
    }
}

#[test]
fn probability_empty_window_is_one_half() {
    let context = ContextContent {
        context_length: 0,
        count_ones: 0,
    };
    assert_eq!(example_get_probability_fixed(&context), FIXED_SCALE / 2);
}

#[test]
fn probability_rounds_to_nearest() {
    // (1 + 1) * 65536 / 5 = 26214.4, rounded to 26214.
    let context = ContextContent {
        context_length: 3,
        count_ones: 1,
    };
    assert_eq!(example_get_probability_fixed(&context), 26214);
    // (2 + 1) * 65536 / 4 = 49152 exactly.
    let context = ContextContent {
        context_length: 2,
        count_ones: 2,
    };
    assert_eq!(example_get_probability_fixed(&context), FIXED_SCALE - 1);
    let context = ContextContent {
        context_length: 2,
        count_ones: 1,
    };
    assert_eq!(example_get_probability_fixed(&context), 32768);
}

#[test]
fn probability_bounds_and_order_at_largest_window() {
    let mut prev = 0;
    for count_ones in 0..=2048u32 {
        let context = ContextContent {
            context_length: 2048,
            count_ones,
        };
        let prob = verified_get_probability_fixed(&context);
        assert!(prob >= 1 && prob < FIXED_SCALE);
        assert!(prob > prev);
        prev = prob;
    }
}
