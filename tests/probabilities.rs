use revise_cross_parameters::exact::ExactNum;
use revise_cross_parameters::float::{Float, FloatOps};
use revise_cross_parameters::prob::{prob_b, prob_b_checked, prob_b_new, prob_b_new_checked, prob_beta};

fn words_to_u128(w: &[u64]) -> u128 {
    assert!(w.len() <= 2, "value too large for the test helper");
    let mut v: u128 = 0;
    for (i, x) in w.iter().enumerate() {
        v |= (*x as u128) << (64 * i);
    }
    v
}

fn frac(x: &ExactNum) -> (u128, u128) {
    (words_to_u128(&x.numerator_words()), words_to_u128(&x.denominator_words()))
}

fn words_log2(w: &[u64]) -> f64 {
    let n = w.len();
    assert!(n > 0);
    let top = w[n - 1] as f64;
    let next = if n >= 2 { w[n - 2] as f64 } else { 0.0 };
    (top + next / 18446744073709551616.0).log2() + 64.0 * (n as f64 - 1.0)
}

/// `-log2(x)` for a positive value.
fn neg_log2(x: &ExactNum) -> f64 {
    words_log2(&x.denominator_words()) - words_log2(&x.numerator_words())
}

#[test]
fn prob_beta_exact_value() {
    assert_eq!(frac(&prob_beta::<ExactNum>(5, 2, 7)), (763, 3888));
}

#[test]
fn prob_beta_from_zero_is_one() {
    for p in [2i64, 3, 7, 127] {
        for t in [0i64, 1, 10, 40] {
            assert!(prob_beta::<ExactNum>(t, 0, p).is_one());
            assert!(prob_beta::<ExactNum>(t, -3, p).is_one());
        }
    }
}

#[test]
fn prob_beta_empty_range_is_zero() {
    assert!(prob_beta::<ExactNum>(4, 5, 3).is_zero());
}

#[test]
fn prob_beta_non_increasing_in_threshold() {
    let t = 30i64;
    for p in [2i64, 5, 127] {
        let mut prev = prob_beta::<ExactNum>(t, 0, p);
        for ts in 1..=t + 1 {
            let cur = prob_beta::<ExactNum>(t, ts, p);
            assert!(cur.le(&prev));
            prev = cur;
        }
    }
}

#[test]
fn prob_b_exact_value() {
    assert_eq!(frac(&prob_b::<ExactNum>(5, 2, 3, 7)), (142, 763));
}

#[test]
fn prob_b_degenerate_ratio_is_flagged() {
    let (v, warned) = prob_b_checked::<ExactNum>(4, 5, 2, 3);
    assert!(v.is_zero());
    assert!(warned);
    let (v, warned) = prob_b_checked::<ExactNum>(3, 0, 5, 7);
    assert!(v.is_zero());
    assert!(warned);
    let (_, warned) = prob_b_checked::<ExactNum>(5, 2, 3, 7);
    assert!(!warned);
}

#[test]
fn prob_b_new_exact_values() {
    let (aa, v) = prob_b_new::<ExactNum>(5, 1, 3, 7);
    assert_eq!(aa, 3);
    assert_eq!(frac(&v), (1193, 9302));
    let (aa, v) = prob_b_new::<ExactNum>(6, 2, 2, 5);
    assert_eq!(aa, 2);
    assert_eq!(frac(&v), (1351, 9545));
}

#[test]
fn prob_b_new_without_candidate_weight() {
    let (aa, v, warned) = prob_b_new_checked::<ExactNum>(3, 0, 5, 7);
    assert_eq!(aa, 5);
    assert!(v.is_zero());
    assert!(warned);
}

#[test]
fn prob_b_new_empty_threshold_range_is_flagged() {
    let (aa, v, warned) = prob_b_new_checked::<ExactNum>(4, 5, 2, 7);
    assert!((2..=4).contains(&aa));
    assert!(v.is_zero());
    assert!(warned);
}

#[test]
fn scenario_prob_beta_cost_bits() {
    let v = prob_beta::<ExactNum>(163, 35, 127);
    let bits = neg_log2(&v);
    assert!((bits - 127.0).abs() < 0.1, "got {}", bits);
}

#[test]
fn scenario_prob_b_cost_bits() {
    let v = prob_b::<ExactNum>(163, 35, 85, 127);
    let bits = neg_log2(&v);
    assert!((bits - 127.0).abs() < 0.1, "got {}", bits);
}

#[test]
fn repeated_calls_are_identical() {
    let a = prob_b::<ExactNum>(12, 3, 6, 11);
    let b = prob_b::<ExactNum>(12, 3, 6, 11);
    assert_eq!(a.numerator_words(), b.numerator_words());
    assert_eq!(a.denominator_words(), b.denominator_words());
}

#[test]
fn scenario_prob_b_new_cost_bits() {
    let (aa, v) = prob_b_new::<ExactNum>(252, 38, 212, 127);
    assert_eq!(aa, 227);
    let bits = neg_log2(&v);
    assert!((bits - 120.0).abs() < 0.5, "got {}", bits);
}
