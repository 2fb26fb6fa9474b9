use revise_cross_parameters::exact::ExactNum;
use revise_cross_parameters::float::{Float, FloatOps};
use revise_cross_parameters::search::{
    estimate_attack, estimate_attack_new, select_min, validate, DomainError, ProgressSink,
    QuietProgress,
};

fn words_to_u128(w: &[u64]) -> u128 {
    assert!(w.len() <= 2, "value too large for the test helper");
    let mut v: u128 = 0;
    for (i, x) in w.iter().enumerate() {
        v |= (*x as u128) << (64 * i);
    }
    v
}

fn frac(x: &ExactNum) -> (u128, u128) {
    (words_to_u128(&x.numerator_words()), words_to_u128(&x.denominator_words()))
}

struct Recorder {
    seen: Vec<(u64, u64)>,
}

impl ProgressSink for Recorder {
    fn advance(&mut self, done: u64, total: u64) {
        self.seen.push((done, total));
    }
}

#[test]
fn estimate_attack_small_values() {
    let r = estimate_attack::<ExactNum, _>(5, 3, 7, &mut QuietProgress).unwrap();
    assert_eq!(r.threshold, 1);
    assert_eq!(frac(r.cost.as_ref().unwrap()), (52540370, 5548643));
    assert_eq!(r.degenerate_units, 0);
    let r = estimate_attack::<ExactNum, _>(8, 4, 11, &mut QuietProgress).unwrap();
    assert_eq!(r.threshold, 2);
    assert_eq!(frac(r.cost.as_ref().unwrap()), (1996857297418645, 46792071652604));
}

#[test]
fn estimate_attack_new_small_values() {
    let r = estimate_attack_new::<ExactNum, _>(5, 3, 7, &mut QuietProgress).unwrap();
    assert_eq!(r.threshold, 1);
    assert_eq!(r.auxiliary, 3);
    assert_eq!(frac(r.cost.as_ref().unwrap()), (52540370, 5548643));
    let r = estimate_attack_new::<ExactNum, _>(8, 4, 11, &mut QuietProgress).unwrap();
    assert_eq!(r.threshold, 2);
    assert_eq!(r.auxiliary, 4);
    assert!((0..=8).contains(&r.threshold));
    assert!((4..=8).contains(&r.auxiliary));
}

#[test]
fn weight_above_repetitions_is_unbounded() {
    let r = estimate_attack::<ExactNum, _>(3, 5, 7, &mut QuietProgress).unwrap();
    assert_eq!(r.threshold, 0);
    assert!(r.cost.is_none());
    assert_eq!(r.degenerate_units, 4);
    let r = estimate_attack_new::<ExactNum, _>(3, 5, 7, &mut QuietProgress).unwrap();
    assert_eq!(r.threshold, 0);
    assert_eq!(r.auxiliary, 5);
    assert!(r.cost.is_none());
    assert_eq!(r.degenerate_units, 4);
}

#[test]
fn domain_errors() {
    assert_eq!(validate(10, 5, 1), Err(DomainError::PrimeTooSmall));
    assert_eq!(validate(-1, 5, 7), Err(DomainError::NegativeRepetitions));
    assert_eq!(validate(70000, 5, 7), Err(DomainError::TooManyRepetitions));
    assert_eq!(validate(10, -2, 7), Err(DomainError::NegativeWeight));
    assert_eq!(validate(65535, 5, 7), Ok(()));
    assert!(matches!(
        estimate_attack::<ExactNum, _>(10, 5, 0, &mut QuietProgress),
        Err(DomainError::PrimeTooSmall)
    ));
    assert!(matches!(
        estimate_attack_new::<ExactNum, _>(70000, 5, 7, &mut QuietProgress),
        Err(DomainError::TooManyRepetitions)
    ));
}

#[test]
fn progress_counts_every_unit() {
    let mut rec = Recorder { seen: Vec::new() };
    estimate_attack::<ExactNum, _>(4, 2, 5, &mut rec).unwrap();
    assert_eq!(rec.seen, vec![(1, 5), (2, 5), (3, 5), (4, 5), (5, 5)]);
}

#[test]
fn select_min_prefers_first_of_equal_costs() {
    let costs = vec![
        Some(ExactNum::from_i64(2)),
        None,
        Some(ExactNum::from_i64(1)),
        Some(ExactNum::from_i64(2).div(&ExactNum::from_i64(2))),
    ];
    assert_eq!(select_min(&costs), 2);
    let unbounded: Vec<Option<ExactNum>> = vec![None, None];
    assert_eq!(select_min(&unbounded), 0);
}

#[test]
fn estimates_are_deterministic() {
    let a = estimate_attack::<ExactNum, _>(8, 4, 11, &mut QuietProgress).unwrap();
    let b = estimate_attack::<ExactNum, _>(8, 4, 11, &mut QuietProgress).unwrap();
    assert_eq!(a.threshold, b.threshold);
    assert_eq!(a.cost.unwrap().numerator_words(), b.cost.unwrap().numerator_words());
}
