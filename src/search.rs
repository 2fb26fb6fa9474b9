//! The search over the threshold `ts` that minimises the attack cost
//! `1 / P(X >= ts) + 1 / P_b(ts)`.
//!
//! A zero collision probability gives an unbounded cost (`None`), which every
//! finite cost precedes. The minimum is taken with a deterministic tie-break:
//! the smallest `ts` among equal costs.
use crate::combin::{binom_spec, lemma_binom_pos};
use crate::float::{Float, FloatOps};
use crate::prob::{
    aux_frac, beta_frac, beta_num, beta_sum, beta_term, is_last_argmax, prob_b_checked,
    prob_b_degenerate, prob_b_frac, prob_b_new_checked, prob_b_new_frac, prob_beta,
};
use crate::rational::{
    eqv, lemma_add_vals, lemma_div_vals, lemma_pos_ops, lemma_pow_sign, lemma_rle_cong,
    lemma_rle_trans, pos_frac, pow_int, radd, rdiv, rint, rle, Frac,
};
use vstd::prelude::*;

verus! {

/// Why parameters are refused.
#[derive(Debug, PartialEq, Eq, Clone, Copy, Structural)]
pub enum DomainError {
    /// `p <= 1`: there is no success probability `1 / (p - 1)`.
    PrimeTooSmall,
    /// `t < 0`.
    NegativeRepetitions,
    /// `t` exceeds the range of the threshold index, `u16::MAX`.
    TooManyRepetitions,
    /// `w < 0`.
    NegativeWeight,
}

/// The first error that `(t, w, p)` gives, in the order `p`, `t`, `w`.
pub open spec fn domain_error(t: int, w: int, p: int) -> Option<DomainError> {
    if p <= 1 {
        Some(DomainError::PrimeTooSmall)
    } else if t < 0 {
        Some(DomainError::NegativeRepetitions)
    } else if t > u16::MAX {
        Some(DomainError::TooManyRepetitions)
    } else if w < 0 {
        Some(DomainError::NegativeWeight)
    } else {
        None
    }
}

/// Checks the attack parameters.
pub fn validate(t: i64, w: i64, p: i64) -> (r: Result<(), DomainError>)
    ensures
        r is Ok <==> domain_error(t as int, w as int, p as int) is None,
        r is Err ==> Some(r->Err_0) == domain_error(t as int, w as int, p as int),
{
    if p <= 1 {
        Err(DomainError::PrimeTooSmall)
    } else if t < 0 {
        Err(DomainError::NegativeRepetitions)
    } else if t > u16::MAX as i64 {
        Err(DomainError::TooManyRepetitions)
    } else if w < 0 {
        Err(DomainError::NegativeWeight)
    } else {
        Ok(())
    }
}

/// The model of a cost: `None` is unbounded.
pub open spec fn cost_model<T: Float>(o: Option<T>) -> Option<Frac> {
    match o {
        Some(c) => Some(c.frac()),
        None => None,
    }
}

pub open spec fn cost_wf(o: Option<Frac>) -> bool {
    match o {
        Some(x) => pos_frac(x),
        None => true,
    }
}

/// `a <= b` for costs, an unbounded cost being above every finite one.
pub open spec fn cost_le(a: Option<Frac>, b: Option<Frac>) -> bool {
    match (a, b) {
        (_, None) => true,
        (None, Some(_)) => false,
        (Some(x), Some(y)) => rle(x, y),
    }
}

pub open spec fn cost_eqv(a: Option<Frac>, b: Option<Frac>) -> bool {
    match (a, b) {
        (None, None) => true,
        (Some(x), Some(y)) => eqv(x, y),
        _ => false,
    }
}

/// `1 / beta + 1 / b`, unbounded where `b` is zero.
pub open spec fn cost_of(beta: Frac, b: Frac) -> Option<Frac> {
    if b.0 == 0 {
        None
    } else {
        Some(radd(rdiv(rint(1), beta), rdiv(rint(1), b)))
    }
}

/// The collision probability as reported: zero where it is degenerate.
pub open spec fn b_value(t: int, ts: int, w: int, p: int) -> Frac {
    if prob_b_degenerate(t, ts, w, p) {
        (0, 1)
    } else {
        prob_b_frac(t, ts, w, p)
    }
}

/// The cost of the base attack at threshold `ts`.
pub open spec fn attack_cost_spec(t: int, ts: int, w: int, p: int) -> Option<Frac> {
    cost_of(beta_frac(t, ts, p), b_value(t, ts, w, p))
}

/// `ts` is the first threshold in `[0, t]` of least cost `cost(ts)`.
pub open spec fn is_first_min(cost: spec_fn(int) -> Option<Frac>, t: int, ts: int) -> bool {
    &&& 0 <= ts <= t
    &&& forall|k: int| 0 <= k <= t ==> #[trigger] cost_le(cost(ts), cost(k))
    &&& forall|k: int| 0 <= k < ts ==> !#[trigger] cost_le(cost(k), cost(ts))
}

proof fn lemma_cost_le_trans(a: Option<Frac>, b: Option<Frac>, c: Option<Frac>)
    requires
        cost_wf(a),
        cost_wf(b),
        cost_wf(c),
        cost_le(a, b),
        cost_le(b, c),
    ensures
        cost_le(a, c),
{
    if a is Some && b is Some && c is Some {
        lemma_rle_trans(a->0, b->0, c->0);
    }
}

proof fn lemma_cost_le_total(a: Option<Frac>, b: Option<Frac>)
    ensures
        cost_le(a, b) || cost_le(b, a),
{
    if a is Some && b is Some {
        let x = a->0;
        let y = b->0;
        assert(rle(x, y) || rle(y, x)) by (nonlinear_arith);
    }
}

proof fn lemma_cost_le_cong(a: Option<Frac>, b: Option<Frac>, a2: Option<Frac>, b2: Option<Frac>)
    requires
        cost_wf(a),
        cost_wf(b),
        cost_wf(a2),
        cost_wf(b2),
        cost_eqv(a, a2),
        cost_eqv(b, b2),
    ensures
        cost_le(a, b) == cost_le(a2, b2),
{
    if a is Some && b is Some {
        lemma_rle_cong(a->0, b->0, a2->0, b2->0);
    }
}

/// The index of the first least cost.
pub fn select_min<T: Float>(costs: &Vec<Option<T>>) -> (r: usize)
    requires
        costs.len() > 0,
        forall|k: int| 0 <= k < costs.len() ==> cost_wf(#[trigger] cost_model(costs@[k])),
    ensures
        r < costs.len(),
        forall|k: int|
            0 <= k < costs.len() ==> #[trigger] cost_le(
                cost_model(costs@[r as int]),
                cost_model(costs@[k]),
            ),
        forall|k: int|
            0 <= k < r ==> !#[trigger] cost_le(cost_model(costs@[k]), cost_model(costs@[r as int])),
{
    let mut best: usize = 0;
    let mut i: usize = 1;
    proof {
        lemma_cost_le_total(cost_model(costs@[0]), cost_model(costs@[0]));
    }
    while i < costs.len()
        invariant
            0 <= best < i <= costs.len(),
            forall|k: int| 0 <= k < costs.len() ==> cost_wf(#[trigger] cost_model(costs@[k])),
            forall|k: int|
                0 <= k < i ==> #[trigger] cost_le(
                    cost_model(costs@[best as int]),
                    cost_model(costs@[k]),
                ),
            forall|k: int|
                0 <= k < best ==> !#[trigger] cost_le(
                    cost_model(costs@[k]),
                    cost_model(costs@[best as int]),
                ),
        decreases costs.len() - i,
    {
        let not_above = match (&costs[best], &costs[i]) {
            (_, None) => true,
            (None, Some(_)) => false,
            (Some(x), Some(y)) => x.le(y),
        };
        proof {
            let mb = cost_model(costs@[best as int]);
            let mi = cost_model(costs@[i as int]);
            assert(not_above == cost_le(mb, mi));
            lemma_cost_le_total(mb, mi);
            if !not_above {
                assert forall|k: int| 0 <= k < i + 1 implies #[trigger] cost_le(
                    mi,
                    cost_model(costs@[k]),
                ) by {
                    if k < i {
                        lemma_cost_le_trans(mi, mb, cost_model(costs@[k]));
                    } else {
                        lemma_cost_le_total(mi, mi);
                    }
                }
                assert forall|k: int| 0 <= k < i implies !#[trigger] cost_le(
                    cost_model(costs@[k]),
                    mi,
                ) by {
                    if cost_le(cost_model(costs@[k]), mi) {
                        lemma_cost_le_trans(mb, cost_model(costs@[k]), mi);
                    }
                }
            }
        }
        if !not_above {
            best = i;
        }
        i = i + 1;
    }
    best
}

/// The threshold probability is positive for `0 <= ts <= t`.
proof fn lemma_beta_pos(t: int, ts: int, p: int)
    requires
        0 <= ts <= t,
        p > 1,
    ensures
        beta_num(t, ts, p) > 0,
        pos_frac(beta_frac(t, ts, p)),
{
    crate::prob::lemma_beta_sum_nonneg(t, p, ts, t);
    assert(binom_spec(t, t) == 1);
    assert(pow_int(p - 2, (t - t) as nat) == 1);
    assert(beta_term(t, t, p) == 1);
    assert(beta_sum(t, p, ts, t + 1) == beta_sum(t, p, ts, t) + beta_term(t, t, p));
    lemma_pow_sign(p - 1, t as nat);
}

} // verus!

verus! {

/// Receives the count of completed threshold units against their total.
pub trait ProgressSink {
    fn advance(&mut self, done: u64, total: u64);
}

/// A progress sink that shows nothing.
pub struct QuietProgress;

impl ProgressSink for QuietProgress {
    fn advance(&mut self, done: u64, total: u64) {
    }
}

/// The result of the base attack's search.
pub struct AttackEstimate<T> {
    /// The threshold `ts*` of least cost.
    pub threshold: i64,
    /// The least cost `1 / P(X >= ts*) + 1 / P_b(ts*)`; `None` when unbounded.
    pub cost: Option<T>,
    /// How many units had a degenerate collision probability, counted as zero.
    pub degenerate_units: u64,
}

/// The result of the revised attack's search.
pub struct NewAttackEstimate<T> {
    /// The threshold `ts*` of least cost.
    pub threshold: i64,
    /// The auxiliary weight `aa*` chosen at `ts*`.
    pub auxiliary: i64,
    /// The least cost; `None` when unbounded.
    pub cost: Option<T>,
    /// How many units had a degenerate probability, counted as zero.
    pub degenerate_units: u64,
}

/// The cost `1 / P(X >= ts) + 1 / P_b(ts)` of the base attack at one
/// threshold, and whether `P_b` was degenerate (a warning).
pub fn attack_cost<T: Float>(t: i64, ts: i64, w: i64, p: i64) -> (r: (Option<T>, bool))
    requires
        0 <= ts <= t <= u32::MAX,
        w >= 0,
        p > 1,
    ensures
        cost_wf(cost_model(r.0)),
        cost_wf(attack_cost_spec(t as int, ts as int, w as int, p as int)),
        cost_eqv(cost_model(r.0), attack_cost_spec(t as int, ts as int, w as int, p as int)),
        r.1 == prob_b_degenerate(t as int, ts as int, w as int, p as int),
{
    let beta = prob_beta::<T>(t, ts, p);
    let (b, deg) = prob_b_checked::<T>(t, ts, w, p);
    let ghost bf = beta_frac(t as int, ts as int, p as int);
    proof {
        lemma_beta_pos(t as int, ts as int, p as int);
        assert(beta.frac().0 > 0) by (nonlinear_arith)
            requires
                beta.frac().0 * bf.1 == bf.0 * beta.frac().1,
                bf.0 > 0,
                bf.1 > 0,
                beta.frac().1 > 0,
                beta.frac().0 >= 0,
        ;
    }
    if b.is_zero() {
        proof {
            if !deg {
                let pf = prob_b_frac(t as int, ts as int, w as int, p as int);
                assert(pf.0 == 0) by (nonlinear_arith)
                    requires
                        b.frac().0 * pf.1 == pf.0 * b.frac().1,
                        b.frac().0 == 0,
                        b.frac().1 > 0,
                ;
            }
        }
        return (None, deg);
    }
    let one = T::one();
    let ib = one.div(&beta);
    let ibb = one.div(&b);
    let c = ib.add(&ibb);
    proof {
        let pf = prob_b_frac(t as int, ts as int, w as int, p as int);
        let cw = binom_spec(t as int, w as int) as int;
        lemma_pow_sign(cw, 2);
        assert(pow_int(cw, 2) == cw * pow_int(cw, 1));
        assert(pow_int(cw, 1) == cw * pow_int(cw, 0));
        assert(pf.1 > 0) by (nonlinear_arith)
            requires
                pf.1 == pow_int(cw, 2) * beta_num(t as int, ts as int, p as int),
                pow_int(cw, 2) == cw * (cw * 1),
                cw > 0,
                beta_num(t as int, ts as int, p as int) > 0,
        ;
        assert(pf.0 > 0) by (nonlinear_arith)
            requires
                b.frac().0 * pf.1 == pf.0 * b.frac().1,
                b.frac().0 > 0,
                b.frac().1 > 0,
                pf.1 > 0,
        ;
        lemma_div_vals(one.frac(), beta.frac(), ib.frac(), rint(1), bf);
        lemma_div_vals(one.frac(), b.frac(), ibb.frac(), rint(1), pf);
        lemma_pos_ops(rint(1), bf);
        lemma_pos_ops(rint(1), pf);
        lemma_pos_ops(ib.frac(), ibb.frac());
        lemma_add_vals(ib.frac(), ibb.frac(), c.frac(), rdiv(rint(1), bf), rdiv(rint(1), pf));
        lemma_pos_ops(rdiv(rint(1), bf), rdiv(rint(1), pf));
    }
    (Some(c), deg)
}

/// `prob_b_degenerate` holds on `[0, t]` exactly when `w > t`.
proof fn lemma_degenerate_iff(t: int, ts: int, w: int, p: int)
    requires
        0 <= ts <= t,
        w >= 0,
        p > 1,
    ensures
        prob_b_degenerate(t, ts, w, p) == (w > t),
{
    lemma_beta_pos(t, ts, p);
    if w <= t {
        lemma_binom_pos(t, w);
    }
}

/// Searches `ts` in `[0, t]` for the least cost of the base attack.
/// Refuses `p <= 1`, `t < 0`, `t > u16::MAX` and `w < 0`.
pub fn estimate_attack<T: Float, P: ProgressSink>(t: i64, w: i64, p: i64, progress: &mut P) -> (r:
    Result<AttackEstimate<T>, DomainError>)
    ensures
        r is Err <==> domain_error(t as int, w as int, p as int) is Some,
        r is Err ==> Some(r->Err_0) == domain_error(t as int, w as int, p as int),
        r is Ok ==> is_first_min(
            |k: int| attack_cost_spec(t as int, k, w as int, p as int),
            t as int,
            r->Ok_0.threshold as int,
        ),
        r is Ok ==> cost_eqv(
            cost_model(r->Ok_0.cost),
            attack_cost_spec(t as int, r->Ok_0.threshold as int, w as int, p as int),
        ),
        r is Ok ==> r->Ok_0.degenerate_units == (if w > t { t + 1 } else { 0 }),
{
    match validate(t, w, p) {
        Err(e) => {
            return Err(e);
        },
        Ok(()) => {},
    }
    let ghost spec_cost = |k: int| attack_cost_spec(t as int, k, w as int, p as int);
    let mut costs: Vec<Option<T>> = Vec::new();
    let mut degenerate: u64 = 0;
    let mut ts: i64 = 0;
    while ts <= t
        invariant
            0 <= ts <= t + 1,
            t <= u16::MAX,
            w >= 0,
            p > 1,
            costs.len() == ts,
            degenerate == (if w > t { ts as int } else { 0 }),
            forall|k: int|
                0 <= k < ts ==> cost_wf(#[trigger] cost_model(costs@[k])) && cost_wf(
                    attack_cost_spec(t as int, k, w as int, p as int),
                ) && cost_eqv(
                    cost_model(costs@[k]),
                    attack_cost_spec(t as int, k, w as int, p as int),
                ),
        decreases t + 1 - ts,
    {
        let (c, deg) = attack_cost::<T>(t, ts, w, p);
        proof {
            lemma_degenerate_iff(t as int, ts as int, w as int, p as int);
        }
        if deg {
            degenerate = degenerate + 1;
        }
        let ghost before = costs@;
        let ghost cm = cost_model(c);
        costs.push(c);
        proof {
            assert(costs@ == before.push(c));
            assert(cost_model(costs@[ts as int]) == cm);
            assert forall|k: int| 0 <= k < ts implies costs@[k] == before[k] by {}
        }
        progress.advance((ts + 1) as u64, (t + 1) as u64);
        ts = ts + 1;
    }
    let i = select_min(&costs);
    proof {
        assert forall|k: int| 0 <= k <= t implies spec_cost(k) == attack_cost_spec(
            t as int,
            k,
            w as int,
            p as int,
        ) by {}
        assert forall|k: int| 0 <= k <= t implies #[trigger] cost_le(
            spec_cost(i as int),
            spec_cost(k),
        ) by {
            assert(cost_le(cost_model(costs@[i as int]), cost_model(costs@[k])));
            lemma_cost_le_cong(
                cost_model(costs@[i as int]),
                cost_model(costs@[k]),
                spec_cost(i as int),
                spec_cost(k),
            );
        }
        assert forall|k: int| 0 <= k < i implies !#[trigger] cost_le(
            spec_cost(k),
            spec_cost(i as int),
        ) by {
            assert(!cost_le(cost_model(costs@[k]), cost_model(costs@[i as int])));
            lemma_cost_le_cong(
                cost_model(costs@[k]),
                cost_model(costs@[i as int]),
                spec_cost(k),
                spec_cost(i as int),
            );
        }
    }
    let cost = costs.remove(i);
    Ok(AttackEstimate { threshold: i as i64, cost, degenerate_units: degenerate })
}

} // verus!

verus! {

/// The auxiliary weight that the revised model picks at threshold `ts`.
pub open spec fn new_aux(t: int, ts: int, w: int, p: int) -> int {
    choose|aa: int| is_last_argmax(t, ts, w, p, aa)
}

/// The revised probability as reported: zero where it is degenerate.
pub open spec fn b_new_value(t: int, ts: int, w: int, p: int) -> Frac {
    if w > t || beta_num(t, ts, p) == 0 {
        (0, 1)
    } else {
        prob_b_new_frac(t, ts, w, p, new_aux(t, ts, w, p))
    }
}

/// The cost of the revised attack at threshold `ts`.
pub open spec fn new_attack_cost_spec(t: int, ts: int, w: int, p: int) -> Option<Frac> {
    cost_of(beta_frac(t, ts, p), b_new_value(t, ts, w, p))
}

/// At most one weight is the last maximiser.
proof fn lemma_argmax_unique(t: int, ts: int, w: int, p: int, a1: int, a2: int)
    requires
        is_last_argmax(t, ts, w, p, a1),
        is_last_argmax(t, ts, w, p, a2),
    ensures
        a1 == a2,
{
    if a1 < a2 {
        assert(rle(aux_frac(t, ts, w, p, a1), aux_frac(t, ts, w, p, a2)));
    } else if a2 < a1 {
        assert(rle(aux_frac(t, ts, w, p, a2), aux_frac(t, ts, w, p, a1)));
    }
}

/// The cost of the revised attack at one threshold, the auxiliary weight
/// chosen there, and whether the probability was degenerate (a warning).
pub fn new_attack_cost<T: Float>(t: i64, ts: i64, w: i64, p: i64) -> (r: (Option<T>, i64, bool))
    requires
        0 <= ts <= t <= u32::MAX,
        w >= 0,
        p > 1,
    ensures
        cost_wf(cost_model(r.0)),
        cost_wf(new_attack_cost_spec(t as int, ts as int, w as int, p as int)),
        cost_eqv(cost_model(r.0), new_attack_cost_spec(t as int, ts as int, w as int, p as int)),
        w <= t ==> is_last_argmax(t as int, ts as int, w as int, p as int, r.1 as int),
        w <= t ==> r.1 == new_aux(t as int, ts as int, w as int, p as int),
        w > t ==> r.1 == w,
        r.2 == (w > t),
{
    let beta = prob_beta::<T>(t, ts, p);
    let (aa, b, deg) = prob_b_new_checked::<T>(t, ts, w, p);
    let ghost bf = beta_frac(t as int, ts as int, p as int);
    proof {
        lemma_beta_pos(t as int, ts as int, p as int);
        assert(beta.frac().0 > 0) by (nonlinear_arith)
            requires
                beta.frac().0 * bf.1 == bf.0 * beta.frac().1,
                bf.0 > 0,
                bf.1 > 0,
                beta.frac().1 > 0,
                beta.frac().0 >= 0,
        ;
        if w <= t {
            let a2 = new_aux(t as int, ts as int, w as int, p as int);
            assert(is_last_argmax(t as int, ts as int, w as int, p as int, aa as int));
            assert(is_last_argmax(t as int, ts as int, w as int, p as int, a2));
            lemma_argmax_unique(t as int, ts as int, w as int, p as int, aa as int, a2);
        }
    }
    if b.is_zero() {
        proof {
            if !deg {
                let pf = prob_b_new_frac(t as int, ts as int, w as int, p as int, aa as int);
                assert(pf.0 == 0) by (nonlinear_arith)
                    requires
                        b.frac().0 * pf.1 == pf.0 * b.frac().1,
                        b.frac().0 == 0,
                        b.frac().1 > 0,
                ;
            }
        }
        return (None, aa, deg);
    }
    let one = T::one();
    let ib = one.div(&beta);
    let ibb = one.div(&b);
    let c = ib.add(&ibb);
    proof {
        let pf = prob_b_new_frac(t as int, ts as int, w as int, p as int, aa as int);
        let cw = binom_spec(t as int, w as int) as int;
        let ca = binom_spec(t as int, aa as int) as int;
        lemma_binom_pos(t as int, w as int);
        lemma_binom_pos(t as int, aa as int);
        assert(pf.1 > 0) by (nonlinear_arith)
            requires
                pf.1 == ca * beta_num(t as int, ts as int, p as int) * cw,
                ca > 0,
                cw > 0,
                beta_num(t as int, ts as int, p as int) > 0,
        ;
        assert(pf.0 > 0) by (nonlinear_arith)
            requires
                b.frac().0 * pf.1 == pf.0 * b.frac().1,
                b.frac().0 > 0,
                b.frac().1 > 0,
                pf.1 > 0,
        ;
        lemma_div_vals(one.frac(), beta.frac(), ib.frac(), rint(1), bf);
        lemma_div_vals(one.frac(), b.frac(), ibb.frac(), rint(1), pf);
        lemma_pos_ops(rint(1), bf);
        lemma_pos_ops(rint(1), pf);
        lemma_pos_ops(ib.frac(), ibb.frac());
        lemma_add_vals(ib.frac(), ibb.frac(), c.frac(), rdiv(rint(1), bf), rdiv(rint(1), pf));
        lemma_pos_ops(rdiv(rint(1), bf), rdiv(rint(1), pf));
    }
    (Some(c), aa, deg)
}

/// Searches `ts` in `[0, t]` for the least cost of the revised attack.
/// Refuses `p <= 1`, `t < 0`, `t > u16::MAX` and `w < 0`.
pub fn estimate_attack_new<T: Float, P: ProgressSink>(
    t: i64,
    w: i64,
    p: i64,
    progress: &mut P,
) -> (r: Result<NewAttackEstimate<T>, DomainError>)
    ensures
        r is Err <==> domain_error(t as int, w as int, p as int) is Some,
        r is Err ==> Some(r->Err_0) == domain_error(t as int, w as int, p as int),
        r is Ok ==> is_first_min(
            |k: int| new_attack_cost_spec(t as int, k, w as int, p as int),
            t as int,
            r->Ok_0.threshold as int,
        ),
        r is Ok ==> cost_eqv(
            cost_model(r->Ok_0.cost),
            new_attack_cost_spec(t as int, r->Ok_0.threshold as int, w as int, p as int),
        ),
        r is Ok && w <= t ==> is_last_argmax(
            t as int,
            r->Ok_0.threshold as int,
            w as int,
            p as int,
            r->Ok_0.auxiliary as int,
        ),
        r is Ok && w > t ==> r->Ok_0.auxiliary == w,
        r is Ok ==> r->Ok_0.degenerate_units == (if w > t { t + 1 } else { 0 }),
{
    match validate(t, w, p) {
        Err(e) => {
            return Err(e);
        },
        Ok(()) => {},
    }
    let mut costs: Vec<Option<T>> = Vec::new();
    let mut auxs: Vec<i64> = Vec::new();
    let mut degenerate: u64 = 0;
    let mut ts: i64 = 0;
    while ts <= t
        invariant
            0 <= ts <= t + 1,
            t <= u16::MAX,
            w >= 0,
            p > 1,
            costs.len() == ts,
            auxs.len() == ts,
            degenerate == (if w > t { ts as int } else { 0 }),
            forall|k: int|
                0 <= k < ts ==> cost_wf(#[trigger] cost_model(costs@[k])) && cost_wf(
                    new_attack_cost_spec(t as int, k, w as int, p as int),
                ) && cost_eqv(
                    cost_model(costs@[k]),
                    new_attack_cost_spec(t as int, k, w as int, p as int),
                ),
            forall|k: int|
                0 <= k < ts ==> (w <= t ==> is_last_argmax(
                    t as int,
                    k,
                    w as int,
                    p as int,
                    #[trigger] auxs@[k] as int,
                )) && (w > t ==> auxs@[k] == w),
        decreases t + 1 - ts,
    {
        let (c, aa, deg) = new_attack_cost::<T>(t, ts, w, p);
        if deg {
            degenerate = degenerate + 1;
        }
        let ghost before = costs@;
        let ghost before_aux = auxs@;
        let ghost cm = cost_model(c);
        costs.push(c);
        auxs.push(aa);
        proof {
            assert(costs@ == before.push(c));
            assert(cost_model(costs@[ts as int]) == cm);
            assert(auxs@[ts as int] == aa);
            assert forall|k: int| 0 <= k < ts implies costs@[k] == before[k] && auxs@[k]
                == before_aux[k] by {}
        }
        progress.advance((ts + 1) as u64, (t + 1) as u64);
        ts = ts + 1;
    }
    let i = select_min(&costs);
    let ghost spec_cost = |k: int| new_attack_cost_spec(t as int, k, w as int, p as int);
    proof {
        assert forall|k: int| 0 <= k <= t implies spec_cost(k) == new_attack_cost_spec(
            t as int,
            k,
            w as int,
            p as int,
        ) by {}
        assert forall|k: int| 0 <= k <= t implies #[trigger] cost_le(
            spec_cost(i as int),
            spec_cost(k),
        ) by {
            assert(cost_le(cost_model(costs@[i as int]), cost_model(costs@[k])));
            lemma_cost_le_cong(
                cost_model(costs@[i as int]),
                cost_model(costs@[k]),
                spec_cost(i as int),
                spec_cost(k),
            );
        }
        assert forall|k: int| 0 <= k < i implies !#[trigger] cost_le(
            spec_cost(k),
            spec_cost(i as int),
        ) by {
            assert(!cost_le(cost_model(costs@[k]), cost_model(costs@[i as int])));
            lemma_cost_le_cong(
                cost_model(costs@[k]),
                cost_model(costs@[i as int]),
                spec_cost(k),
                spec_cost(i as int),
            );
        }
        assert(auxs@[i as int] == auxs@[i as int]);
    }
    let auxiliary = auxs[i];
    let cost = costs.remove(i);
    Ok(NewAttackEstimate { threshold: i as i64, auxiliary, cost, degenerate_units: degenerate })
}

} // verus!
