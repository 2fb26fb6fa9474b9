use revise_cross_parameters::combin::binom;
use revise_cross_parameters::exact::ExactNum;
use revise_cross_parameters::float::{Float, FloatAssignOps, FloatOps, MulDivAssign};

fn words_to_u128(w: &[u64]) -> u128 {
    assert!(w.len() <= 2, "value too large for the test helper");
    let mut v: u128 = 0;
    for (i, x) in w.iter().enumerate() {
        v |= (*x as u128) << (64 * i);
    }
    v
}

/// The value as a reduced fraction `(numerator, denominator)`.
fn frac(x: &ExactNum) -> (u128, u128) {
    (words_to_u128(&x.numerator_words()), words_to_u128(&x.denominator_words()))
}

fn num(v: i64) -> ExactNum {
    ExactNum::from_i64(v)
}

#[test]
fn exact_arithmetic_is_reduced() {
    let a = num(1).div(&num(6));
    let b = num(1).div(&num(3));
    assert_eq!(frac(&a.add(&b)), (1, 2));
    assert_eq!(frac(&b.sub(&a)), (1, 6));
    assert_eq!(frac(&a.mul(&b)), (1, 18));
    assert_eq!(frac(&a.div(&b)), (1, 2));
}

#[test]
fn assignment_operators() {
    let mut x = num(3);
    x.add_assign(&num(4));
    assert_eq!(frac(&x), (7, 1));
    x.sub_assign(&num(2));
    assert_eq!(frac(&x), (5, 1));
    x.mul_assign(&num(6));
    assert_eq!(frac(&x), (30, 1));
    x.div_assign(&num(4));
    assert_eq!(frac(&x), (15, 2));
    x.mul_div_assign(&num(4), &num(3));
    assert_eq!(frac(&x), (10, 1));
}

#[test]
fn pow_zero_one_and_nan() {
    let half = num(1).div(&num(2));
    assert_eq!(frac(&half.pow(10)), (1, 1024));
    assert_eq!(frac(&num(7).pow(0)), (1, 1));
    assert!(ExactNum::zero().is_zero());
    assert!(!ExactNum::one().is_zero());
    assert!(num(4).div(&num(4)).is_one());
    let mut z = num(9);
    z.set_zero();
    assert!(z.is_zero());
    z.set_one();
    assert!(z.is_one());
    let nan = num(0).div(&num(0));
    assert!(nan.is_nan());
    assert!(!half.is_nan());
}

#[test]
fn order_of_numbers() {
    let a = num(1).div(&num(3));
    let b = num(2).div(&num(5));
    assert!(a.le(&b));
    assert!(!b.le(&a));
    assert!(a.le(&num(2).div(&num(6))));
}

#[test]
fn large_values_exceed_one_word() {
    // 2^70 = 1180591620717411303424
    let big = num(2).pow(70);
    assert_eq!(frac(&big), (1u128 << 70, 1));
    let back = big.div(&num(2).pow(69));
    assert_eq!(frac(&back), (2, 1));
}

#[test]
fn binom_small_values() {
    assert_eq!(frac(&binom::<ExactNum>(5, 2)), (10, 1));
    assert_eq!(frac(&binom::<ExactNum>(10, 3)), (120, 1));
    assert_eq!(frac(&binom::<ExactNum>(0, 0)), (1, 1));
    assert_eq!(frac(&binom::<ExactNum>(7, 7)), (1, 1));
    assert_eq!(frac(&binom::<ExactNum>(60, 30)), (118264581564861424, 1));
}

#[test]
fn binom_out_of_range_is_zero() {
    assert!(binom::<ExactNum>(5, -1).is_zero());
    assert!(binom::<ExactNum>(5, 6).is_zero());
    assert!(binom::<ExactNum>(-3, 0).is_zero());
}

#[test]
fn binom_is_symmetric() {
    for n in 0..25i64 {
        for k in 0..=n {
            assert_eq!(frac(&binom::<ExactNum>(n, k)), frac(&binom::<ExactNum>(n, n - k)));
        }
    }
}

#[test]
fn binom_row_sums_to_power_of_two() {
    for t in 0..20i64 {
        let mut s = ExactNum::zero();
        for j in 0..=t {
            s.add_assign(&binom::<ExactNum>(t, j));
        }
        assert_eq!(frac(&s), (1u128 << t, 1));
    }
}
