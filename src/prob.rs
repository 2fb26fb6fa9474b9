//! The success probabilities of the two attack models, as exact finite sums.
//!
//! With `q = 1 / (p - 1)`, the term `C(t, j) q^j (1 - q)^(t - j)` equals
//! `C(t, j) (p - 2)^(t - j) / (p - 1)^t`; the spec functions below state each
//! probability as such an integer sum over a common denominator.
use crate::combin::{binom, binom_spec, is_pascal_rows, lemma_pascal, pascal_rows, table_binom};
use crate::float::{Float, FloatAssignOps, FloatOps};
use crate::rational::{
    eqv, lemma_add_same_den, lemma_add_vals, lemma_div_vals, lemma_eqv_cancel, lemma_eqv_int,
    lemma_eqv_trans, lemma_mul_vals, lemma_pos_ops, lemma_pow_add, lemma_pow_sign, lemma_pow_vals,
    lemma_rle_cong, lemma_rle_trans, lemma_sub_vals, pos_frac, pow_int, radd, rdiv, rint, rle, rmul,
    Frac,
};
use vstd::prelude::*;

verus! {

/// `C(t, j) (p - 2)^(t - j)`: the term `j` of the threshold probability, times `(p - 1)^t`.
pub open spec fn beta_term(t: int, j: int, p: int) -> int {
    binom_spec(t, j) * pow_int(p - 2, (t - j) as nat)
}

/// `Σ_{j=lo}^{hi-1} beta_term(t, j, p)`.
pub open spec fn beta_sum(t: int, p: int, lo: int, hi: int) -> int
    decreases hi - lo,
{
    if hi <= lo {
        0
    } else {
        beta_sum(t, p, lo, hi - 1) + beta_term(t, hi - 1, p)
    }
}

/// The numerator of `P(X >= ts)` for `X ~ Binomial(t, 1/(p-1))` over the
/// denominator `(p - 1)^t`; the sum starts at `j = max(ts, 0)`.
pub open spec fn beta_num(t: int, ts: int, p: int) -> int {
    beta_sum(t, p, if ts < 0 { 0 } else { ts }, t + 1)
}

/// `P(X >= ts)` as a fraction.
pub open spec fn beta_frac(t: int, ts: int, p: int) -> Frac {
    (beta_num(t, ts, p), pow_int(p - 1, t as nat))
}

proof fn lemma_beta_term_nonneg(t: int, j: int, p: int)
    requires
        p > 1,
    ensures
        beta_term(t, j, p) >= 0,
{
    lemma_pow_sign(p - 2, (t - j) as nat);
    assert(binom_spec(t, j) * pow_int(p - 2, (t - j) as nat) >= 0) by (nonlinear_arith)
        requires
            pow_int(p - 2, (t - j) as nat) >= 0,
    ;
}

/// Dropping terms from the front of the sum does not increase it.
proof fn lemma_beta_sum_mono(t: int, p: int, lo1: int, lo2: int, hi: int)
    requires
        p > 1,
        lo1 <= lo2,
    ensures
        beta_sum(t, p, lo2, hi) <= beta_sum(t, p, lo1, hi),
        beta_sum(t, p, lo1, hi) >= 0,
    decreases hi - lo1,
{
    if hi > lo1 {
        lemma_beta_term_nonneg(t, hi - 1, p);
        lemma_beta_sum_mono(t, p, lo1, lo2, hi - 1);
        if hi <= lo2 {
            lemma_beta_sum_mono(t, p, lo1, lo1, hi - 1);
        }
    }
}

pub proof fn lemma_beta_sum_nonneg(t: int, p: int, lo: int, hi: int)
    requires
        p > 1,
    ensures
        beta_sum(t, p, lo, hi) >= 0,
{
    lemma_beta_sum_mono(t, p, lo, lo, hi);
}

/// The threshold probability does not increase with the threshold.
pub proof fn lemma_prob_beta_monotone(t: int, ts1: int, ts2: int, p: int)
    requires
        p > 1,
        ts1 <= ts2,
    ensures
        rle(beta_frac(t, ts2, p), beta_frac(t, ts1, p)),
{
    let lo1 = if ts1 < 0 { 0 } else { ts1 };
    let lo2 = if ts2 < 0 { 0 } else { ts2 };
    lemma_beta_sum_mono(t, p, lo1, lo2, t + 1);
    let d = pow_int(p - 1, t as nat);
    lemma_pow_sign(p - 1, t as nat);
    assert(beta_num(t, ts2, p) * d <= beta_num(t, ts1, p) * d) by (nonlinear_arith)
        requires
            beta_num(t, ts2, p) <= beta_num(t, ts1, p),
            d > 0,
    ;
}

proof fn lemma_beta_term_pascal(t: int, j: int, p: int)
    requires
        t >= 1,
        0 <= j <= t,
    ensures
        beta_term(t, j, p) == beta_term(t - 1, j - 1, p) + (p - 2) * beta_term(t - 1, j, p),
{
    lemma_pascal(t, j);
    let x = p - 2;
    let e = (t - j) as nat;
    if j < t {
        assert(pow_int(x, e) == x * pow_int(x, (e - 1) as nat));
        assert(binom_spec(t, j) * pow_int(x, e) == binom_spec(t - 1, j - 1) * pow_int(x, e)
            + x * (binom_spec(t - 1, j) * pow_int(x, (e - 1) as nat))) by (nonlinear_arith)
            requires
                binom_spec(t, j) == binom_spec(t - 1, j - 1) + binom_spec(t - 1, j),
                pow_int(x, e) == x * pow_int(x, (e - 1) as nat),
        ;
    } else {
        assert(binom_spec(t - 1, j) == 0);
        assert(x * beta_term(t - 1, j, p) == 0) by (nonlinear_arith)
            requires
                beta_term(t - 1, j, p) == binom_spec(t - 1, j) * pow_int(x, 0),
                binom_spec(t - 1, j) == 0,
        ;
    }
}

proof fn lemma_beta_sum_pascal(t: int, p: int, m: int)
    requires
        t >= 1,
        0 <= m <= t + 1,
    ensures
        beta_sum(t, p, 0, m) == beta_sum(t - 1, p, 0, m - 1) + (p - 2) * beta_sum(t - 1, p, 0, m),
    decreases m,
{
    if m > 0 {
        lemma_beta_sum_pascal(t, p, m - 1);
        lemma_beta_term_pascal(t, m - 1, p);
        if m >= 2 {
            assert(beta_sum(t - 1, p, 0, m - 1) == beta_sum(t - 1, p, 0, m - 2) + beta_term(
                t - 1,
                m - 2,
                p,
            ));
        } else {
            assert(binom_spec(t - 1, -1) == 0);
            assert(beta_term(t - 1, -1, p) == 0) by (nonlinear_arith)
                requires
                    beta_term(t - 1, -1, p) == binom_spec(t - 1, -1) * pow_int(p - 2, (t - 1 + 1) as nat),
                    binom_spec(t - 1, -1) == 0,
            ;
        }
        assert((p - 2) * beta_sum(t - 1, p, 0, m) == (p - 2) * beta_sum(t - 1, p, 0, m - 1) + (p
            - 2) * beta_term(t - 1, m - 1, p)) by (nonlinear_arith)
            requires
                beta_sum(t - 1, p, 0, m) == beta_sum(t - 1, p, 0, m - 1) + beta_term(t - 1, m - 1, p),
        ;
    }
}

/// From threshold zero the probability is the whole mass, one (binomial theorem).
pub proof fn lemma_prob_beta_full_mass(t: int, p: int)
    requires
        t >= 0,
        p > 1,
    ensures
        eqv(beta_frac(t, 0, p), rint(1)),
    decreases t,
{
    if t >= 1 {
        lemma_prob_beta_full_mass(t - 1, p);
        lemma_beta_sum_pascal(t, p, t + 1);
        assert(beta_sum(t - 1, p, 0, t + 1) == beta_sum(t - 1, p, 0, t) + beta_term(t - 1, t, p));
        assert(binom_spec(t - 1, t) == 0);
        let s = beta_sum(t - 1, p, 0, t);
        lemma_eqv_int(beta_frac(t - 1, 0, p), 1);
        assert(beta_frac(t - 1, 0, p).0 == s);
        assert(beta_frac(t - 1, 0, p).1 == pow_int(p - 1, (t - 1) as nat));
        assert(s == pow_int(p - 1, (t - 1) as nat)) by (nonlinear_arith)
            requires
                beta_frac(t - 1, 0, p).0 == 1 * beta_frac(t - 1, 0, p).1,
                beta_frac(t - 1, 0, p).0 == s,
                beta_frac(t - 1, 0, p).1 == pow_int(p - 1, (t - 1) as nat),
        ;
        assert(pow_int(p - 1, t as nat) == (p - 1) * pow_int(p - 1, (t - 1) as nat));
        assert(beta_term(t - 1, t, p) == 0) by (nonlinear_arith)
            requires
                beta_term(t - 1, t, p) == binom_spec(t - 1, t) * pow_int(p - 2, (t - 1 - t) as nat),
                binom_spec(t - 1, t) == 0,
        ;
        assert(beta_sum(t - 1, p, 0, t + 1) == s);
        assert(beta_sum(t, p, 0, t + 1) == s + (p - 2) * s);
        assert(s + (p - 2) * s == (p - 1) * s) by (nonlinear_arith);
        assert(beta_num(t, 0, p) == pow_int(p - 1, t as nat));
        assert(eqv(beta_frac(t, 0, p), rint(1))) by (nonlinear_arith)
            requires
                beta_num(t, 0, p) == pow_int(p - 1, t as nat),
        ;
    } else {
        assert(beta_sum(0, p, 0, 1) == beta_sum(0, p, 0, 0) + beta_term(0, 0, p));
        assert(beta_num(0, 0, p) == 1);
    }
}

/// The value of one term `C(t, j) q^j (1 - q)^(t - j)` as computed.
proof fn lemma_term_value(
    b: Frac,
    ip: Frac,
    op: Frac,
    bi: Frac,
    term: Frac,
    t: int,
    j: int,
    p: int,
)
    requires
        p > 1,
        0 <= j <= t,
        pos_frac(b),
        pos_frac(ip),
        pos_frac(op),
        pos_frac(bi),
        eqv(b, rint(binom_spec(t, j) as int)),
        eqv(ip, (pow_int(1, j as nat), pow_int(p - 1, j as nat))),
        eqv(op, (pow_int(p - 2, (t - j) as nat), pow_int(p - 1, (t - j) as nat))),
        eqv(bi, rmul(b, ip)),
        eqv(term, rmul(bi, op)),
    ensures
        eqv(term, (beta_term(t, j, p), pow_int(p - 1, t as nat))),
{
    lemma_pow_sign(1, j as nat);
    lemma_mul_vals(b, ip, bi, rint(binom_spec(t, j) as int), (1, pow_int(p - 1, j as nat)));
    lemma_mul_vals(
        bi,
        op,
        term,
        rmul(rint(binom_spec(t, j) as int), (1, pow_int(p - 1, j as nat))),
        (pow_int(p - 2, (t - j) as nat), pow_int(p - 1, (t - j) as nat)),
    );
    lemma_pow_add(p - 1, j as nat, (t - j) as nat);
    assert(binom_spec(t, j) * 1 * pow_int(p - 2, (t - j) as nat) == beta_term(t, j, p));
    assert(1 * pow_int(p - 1, j as nat) * pow_int(p - 1, (t - j) as nat) == pow_int(
        p - 1,
        t as nat,
    ));
}

/// `q = 1 / (p - 1)` and `1 - q`, with their values.
fn success_rates<T: Float>(p: i64) -> (r: (T, T))
    requires
        p > 1,
    ensures
        pos_frac(r.0.frac()),
        pos_frac(r.1.frac()),
        eqv(r.0.frac(), (1, p - 1)),
        eqv(r.1.frac(), (p - 2, p - 1)),
{
    let one = T::one();
    let pm1 = T::from_i64(p - 1);
    proof {
        lemma_eqv_int(pm1.frac(), p - 1);
        assert(pm1.frac().0 > 0) by (nonlinear_arith)
            requires
                pm1.frac().0 == (p - 1) * pm1.frac().1,
                p > 1,
                pm1.frac().1 > 0,
        ;
    }
    let inv = one.div(&pm1);
    proof {
        lemma_div_vals(one.frac(), pm1.frac(), inv.frac(), rint(1), rint(p - 1));
        lemma_eqv_int(one.frac(), 1);
        assert(inv.frac().0 * (p - 1) == inv.frac().1) by (nonlinear_arith)
            requires
                inv.frac().0 * (1 * (p - 1)) == (1 * 1) * inv.frac().1,
        ;
        assert(rle(inv.frac(), one.frac())) by (nonlinear_arith)
            requires
                inv.frac().0 * (p - 1) == inv.frac().1,
                inv.frac().1 > 0,
                inv.frac().0 >= 0,
                one.frac().0 == one.frac().1,
                one.frac().1 > 0,
                p > 1,
        ;
    }
    let omq = one.sub(&inv);
    proof {
        lemma_sub_vals(one.frac(), inv.frac(), omq.frac(), rint(1), (1, p - 1));
    }
    (inv, omq)
}

/// The threshold probability `P(X >= ts) = Σ_{j=ts}^{t} C(t,j) q^j (1-q)^(t-j)`
/// for `X ~ Binomial(t, q)`, `q = 1/(p-1)`. Zero for `ts > t`; one for `ts <= 0`.
pub fn prob_beta<T: Float>(t: i64, ts: i64, p: i64) -> (r: T)
    requires
        0 <= t <= u32::MAX,
        p > 1,
    ensures
        pos_frac(r.frac()),
        eqv(r.frac(), beta_frac(t as int, ts as int, p as int)),
{
    let (inv, omq) = success_rates::<T>(p);
    let lo: i64 = if ts < 0 { 0 } else { ts };
    let mut sum = T::zero();
    proof {
        lemma_pow_sign(p - 1, t as nat);
    }
    if lo > t {
        return sum;
    }
    let mut j: i64 = lo;
    while j <= t
        invariant
            0 <= lo <= j <= t + 1,
            t <= u32::MAX,
            p > 1,
            lo == (if ts < 0 { 0 } else { ts }),
            pow_int(p - 1, t as nat) > 0,
            pos_frac(inv.frac()),
            pos_frac(omq.frac()),
            eqv(inv.frac(), (1, p - 1)),
            eqv(omq.frac(), (p - 2, p - 1)),
            pos_frac(sum.frac()),
            eqv(sum.frac(), (beta_sum(t as int, p as int, lo as int, j as int), pow_int(p - 1, t as nat))),
        decreases t + 1 - j,
    {
        let b = binom::<T>(t, j);
        let ip = inv.pow(j as u32);
        let op = omq.pow((t - j) as u32);
        let bi = b.mul(&ip);
        let term = bi.mul(&op);
        proof {
            lemma_pow_vals(inv.frac(), ip.frac(), 1, p - 1, j as nat);
            lemma_pow_vals(omq.frac(), op.frac(), p - 2, p - 1, (t - j) as nat);
            lemma_term_value(b.frac(), ip.frac(), op.frac(), bi.frac(), term.frac(), t as int, j as int, p as int);
        }
        let ghost s0 = sum.frac();
        sum.add_assign(&term);
        proof {
            let d = pow_int(p - 1, t as nat);
            let prev = (beta_sum(t as int, p as int, lo as int, j as int), d);
            lemma_add_vals(s0, term.frac(), sum.frac(), prev, (beta_term(t as int, j as int, p as int), d));
            lemma_add_same_den(prev.0, beta_term(t as int, j as int, p as int), d);
            lemma_pos_ops(s0, term.frac());
            assert(d * d > 0) by (nonlinear_arith)
                requires
                    d > 0,
            ;
            lemma_eqv_trans(sum.frac(), radd(prev, (beta_term(t as int, j as int, p as int), d)), (beta_sum(t as int, p as int, lo as int, j + 1), d));
        }
        j = j + 1;
    }
    sum
}

} // verus!

verus! {

/// `Σ_{ws=lo}^{hi-1} C(j, ws)^2 C(t - j, w - ws)`.
pub open spec fn inner_sum(t: int, w: int, j: int, lo: int, hi: int) -> int
    decreases hi - lo,
{
    if hi <= lo {
        0
    } else {
        inner_sum(t, w, j, lo, hi - 1) + pow_int(binom_spec(j, hi - 1) as int, 2) * binom_spec(
            t - j,
            w - (hi - 1),
        )
    }
}

/// The inner sum of the collision probability, over
/// `max(0, j - (t - w)) <= ws <= min(j, w)`.
pub open spec fn inner(t: int, w: int, j: int) -> int {
    inner_sum(
        t,
        w,
        j,
        if j - (t - w) < 0 { 0 } else { j - (t - w) },
        (if j < w { j } else { w }) + 1,
    )
}

/// `Σ_{j=lo}^{hi-1} beta_term(t, j, p) inner(t, w, j)`.
pub open spec fn b_sum(t: int, w: int, p: int, lo: int, hi: int) -> int
    decreases hi - lo,
{
    if hi <= lo {
        0
    } else {
        b_sum(t, w, p, lo, hi - 1) + beta_term(t, hi - 1, p) * inner(t, w, hi - 1)
    }
}

/// Whether the collision probability is a degenerate `0 / 0` ratio.
pub open spec fn prob_b_degenerate(t: int, ts: int, w: int, p: int) -> bool {
    binom_spec(t, w) == 0 || beta_num(t, ts, p) == 0
}

/// The collision probability given the threshold event, as a fraction:
/// `(Σ_j C(t,j) q^j (1-q)^(t-j) inner(j) / C(t,w)^2) / P(X >= ts)`.
pub open spec fn prob_b_frac(t: int, ts: int, w: int, p: int) -> Frac {
    (
        b_sum(t, w, p, if ts < 0 { 0 } else { ts }, t + 1),
        pow_int(binom_spec(t, w) as int, 2) * beta_num(t, ts, p),
    )
}

/// `x` is a fraction equal to `(num, den)` with `den > 0` (and `x` well formed).
pub open spec fn is_value(x: Frac, num: int, den: int) -> bool {
    pos_frac(x) && den > 0 && eqv(x, (num, den))
}

/// Adding a term of value `m / d` to a sum of value `s / d`.
proof fn lemma_accumulate(a: Frac, b: Frac, r: Frac, s: int, m: int, d: int)
    requires
        is_value(a, s, d),
        is_value(b, m, d),
        eqv(r, radd(a, b)),
    ensures
        eqv(r, (s + m, d)),
{
    lemma_add_vals(a, b, r, (s, d), (m, d));
    lemma_add_same_den(s, m, d);
    assert(d * d > 0) by (nonlinear_arith)
        requires
            d > 0,
    ;
    lemma_eqv_trans(r, radd((s, d), (m, d)), (s + m, d));
}

/// `C(j, ws)^2 C(t - j, w - ws)` as computed.
fn inner_term<T: Float>(t: i64, w: i64, j: i64, ws: i64) -> (r: T)
    requires
        0 <= j <= t,
        0 <= ws,
        w >= 0,
    ensures
        is_value(r.frac(), pow_int(binom_spec(j as int, ws as int) as int, 2) * binom_spec(
            t - j,
            w - ws,
        ), 1),
{
    let c = binom::<T>(j, ws);
    let c2 = c.pow(2);
    let d = binom::<T>(t - j, w - ws);
    let r = c2.mul(&d);
    proof {
        let cv = binom_spec(j as int, ws as int) as int;
        let dv = binom_spec(t - j, w - ws) as int;
        lemma_pow_vals(c.frac(), c2.frac(), cv, 1, 2);
        lemma_pow_sign(1, 2);
        lemma_mul_vals(c2.frac(), d.frac(), r.frac(), (pow_int(cv, 2), 1), (dv, 1));
    }
    r
}

/// The inner sum of `prob_b` for one `j`.
fn inner_value<T: Float>(t: i64, w: i64, j: i64) -> (r: T)
    requires
        0 <= j <= t <= u32::MAX,
        w >= 0,
    ensures
        is_value(r.frac(), inner(t as int, w as int, j as int), 1),
{
    let lo: i64 = if (j - t) + w < 0 { 0 } else { (j - t) + w };
    let hi: i64 = if j < w { j } else { w };
    let mut acc = T::zero();
    let mut ws: i64 = lo;
    if lo > hi {
        return acc;
    }
    while ws <= hi
        invariant
            0 <= j <= t,
            t <= u32::MAX,
            w >= 0,
            0 <= lo <= ws <= hi + 1,
            hi <= j,
            lo == (if j - (t - w) < 0 { 0 } else { j - (t - w) }),
            hi == (if j < w { j } else { w }),
            is_value(acc.frac(), inner_sum(t as int, w as int, j as int, lo as int, ws as int), 1),
        decreases hi + 1 - ws,
    {
        let x = inner_term::<T>(t, w, j, ws);
        let ghost a0 = acc.frac();
        acc.add_assign(&x);
        proof {
            lemma_accumulate(
                a0,
                x.frac(),
                acc.frac(),
                inner_sum(t as int, w as int, j as int, lo as int, ws as int),
                pow_int(binom_spec(j as int, ws as int) as int, 2) * binom_spec(t - j, w - ws),
                1,
            );
        }
        ws = ws + 1;
    }
    acc
}

/// One term `C(t, j) q^j (1 - q)^(t - j)` as computed.
fn threshold_term<T: Float>(t: i64, j: i64, p: i64, inv: &T, omq: &T) -> (r: T)
    requires
        0 <= j <= t <= u32::MAX,
        p > 1,
        pos_frac(inv.frac()),
        pos_frac(omq.frac()),
        eqv(inv.frac(), (1, p - 1)),
        eqv(omq.frac(), (p - 2, p - 1)),
    ensures
        is_value(r.frac(), beta_term(t as int, j as int, p as int), pow_int(p - 1, t as nat)),
{
    let b = binom::<T>(t, j);
    let ip = inv.pow(j as u32);
    let op = omq.pow((t - j) as u32);
    let bi = b.mul(&ip);
    let term = bi.mul(&op);
    proof {
        lemma_pow_vals(inv.frac(), ip.frac(), 1, p - 1, j as nat);
        lemma_pow_vals(omq.frac(), op.frac(), p - 2, p - 1, (t - j) as nat);
        lemma_term_value(b.frac(), ip.frac(), op.frac(), bi.frac(), term.frac(), t as int, j as int, p as int);
        lemma_pow_sign(p - 1, t as nat);
    }
    term
}

/// `term * inner / C(t,w)^2` as computed.
proof fn lemma_scaled_term(
    term: Frac,
    inn: Frac,
    ti: Frac,
    bw2: Frac,
    x: Frac,
    bt: int,
    iv: int,
    d: int,
    c2: int,
)
    requires
        is_value(term, bt, d),
        is_value(inn, iv, 1),
        is_value(bw2, c2, 1),
        bw2.0 > 0,
        eqv(ti, rmul(term, inn)),
        pos_frac(ti),
        pos_frac(x),
        eqv(x, rdiv(ti, bw2)),
    ensures
        is_value(x, bt * iv, d * c2),
{
    lemma_mul_vals(term, inn, ti, (bt, d), (iv, 1));
    lemma_div_vals(ti, bw2, x, (bt * iv, d * 1), (c2, 1));
    lemma_eqv_int(bw2, c2);
    assert(c2 > 0) by (nonlinear_arith)
        requires
            bw2.0 == c2 * bw2.1,
            bw2.0 > 0,
            bw2.1 > 0,
    ;
    assert(d * c2 > 0 && (d * 1) * c2 > 0) by (nonlinear_arith)
        requires
            d > 0,
            c2 > 0,
    ;
    assert(eqv(((bt * iv) * 1, (d * 1) * c2), (bt * iv, d * c2))) by (nonlinear_arith);
    lemma_eqv_trans(x, ((bt * iv) * 1, (d * 1) * c2), (bt * iv, d * c2));
    lemma_pos_ops(ti, bw2);
}

/// The collision probability of weight `w` given the threshold event, and
/// whether it was a degenerate `0 / 0` ratio, then reported as zero (a warning).
pub fn prob_b_checked<T: Float>(t: i64, ts: i64, w: i64, p: i64) -> (r: (T, bool))
    requires
        0 <= t <= u32::MAX,
        w >= 0,
        p > 1,
    ensures
        pos_frac(r.0.frac()),
        r.1 == prob_b_degenerate(t as int, ts as int, w as int, p as int),
        r.1 ==> r.0.frac().0 == 0,
        !r.1 ==> eqv(r.0.frac(), prob_b_frac(t as int, ts as int, w as int, p as int)),
{
    let (inv, omq) = success_rates::<T>(p);
    let bw = binom::<T>(t, w);
    let bw2 = bw.pow(2);
    let ghost cw = binom_spec(t as int, w as int) as int;
    let ghost d = pow_int(p - 1, t as nat);
    proof {
        lemma_pow_vals(bw.frac(), bw2.frac(), cw, 1, 2);
        lemma_pow_sign(1, 2);
        lemma_pow_sign(cw, 2);
        lemma_pow_sign(p - 1, t as nat);
        lemma_eqv_int(bw2.frac(), pow_int(cw, 2));
        assert(pow_int(cw, 0) == 1);
        assert(pow_int(cw, 1) == cw * pow_int(cw, 0));
        assert(pow_int(cw, 2) == cw * pow_int(cw, 1));
        assert(pow_int(cw, 2) == cw * cw);
        assert((cw == 0) == (pow_int(cw, 2) == 0)) by (nonlinear_arith)
            requires
                pow_int(cw, 2) == cw * cw,
        ;
        assert((bw2.frac().0 == 0) == (pow_int(cw, 2) == 0)) by (nonlinear_arith)
            requires
                bw2.frac().0 == pow_int(cw, 2) * bw2.frac().1,
                bw2.frac().1 > 0,
        ;
    }
    if bw2.is_zero() {
        return (T::zero(), true);
    }
    let lo: i64 = if ts < 0 { 0 } else { ts };
    let mut sum = T::zero();
    let mut j: i64 = lo;
    let ghost dd = d * pow_int(cw, 2);
    proof {
        assert(dd > 0) by (nonlinear_arith)
            requires
                d > 0,
                pow_int(cw, 2) > 0,
                dd == d * pow_int(cw, 2),
        ;
        assert(eqv(sum.frac(), (0, dd))) by (nonlinear_arith)
            requires
                sum.frac().0 == 0,
        ;
    }
    while j <= t
        invariant
            0 <= lo,
            lo <= j,
            j <= t + 1 || j == lo,
            t <= u32::MAX,
            w >= 0,
            p > 1,
            lo == (if ts < 0 { 0 } else { ts }),
            d == pow_int(p - 1, t as nat),
            d > 0,
            dd == d * pow_int(cw, 2),
            dd > 0,
            pos_frac(inv.frac()),
            pos_frac(omq.frac()),
            eqv(inv.frac(), (1, p - 1)),
            eqv(omq.frac(), (p - 2, p - 1)),
            is_value(bw2.frac(), pow_int(cw, 2), 1),
            bw2.frac().0 > 0,
            is_value(sum.frac(), b_sum(t as int, w as int, p as int, lo as int, j as int), dd),
        decreases t + 1 - j,
    {
        let term = threshold_term::<T>(t, j, p, &inv, &omq);
        let inn = inner_value::<T>(t, w, j);
        let ti = term.mul(&inn);
        let x = ti.div(&bw2);
        proof {
            lemma_scaled_term(
                term.frac(),
                inn.frac(),
                ti.frac(),
                bw2.frac(),
                x.frac(),
                beta_term(t as int, j as int, p as int),
                inner(t as int, w as int, j as int),
                d,
                pow_int(cw, 2),
            );
        }
        let ghost s0 = sum.frac();
        sum.add_assign(&x);
        proof {
            lemma_accumulate(
                s0,
                x.frac(),
                sum.frac(),
                b_sum(t as int, w as int, p as int, lo as int, j as int),
                beta_term(t as int, j as int, p as int) * inner(t as int, w as int, j as int),
                dd,
            );
        }
        j = j + 1;
    }
    let beta = prob_beta::<T>(t, ts, p);
    let result = sum.div(&beta);
    proof {
        let bn = beta_num(t as int, ts as int, p as int);
        let bs = b_sum(t as int, w as int, p as int, lo as int, t + 1);
        assert(b_sum(t as int, w as int, p as int, lo as int, j as int) == bs) by {
            if lo > t {
                assert(j == lo);
            }
        }
        assert((beta.frac().0 == 0) == (bn == 0)) by (nonlinear_arith)
            requires
                beta.frac().0 * d == bn * beta.frac().1,
                beta.frac().1 > 0,
                d > 0,
        ;
        if bn != 0 {
            lemma_div_vals(sum.frac(), beta.frac(), result.frac(), (bs, dd), (bn, d));
            lemma_eqv_cancel(bs, pow_int(cw, 2) * bn, d);
            assert(rdiv((bs, dd), (bn, d)) == (bs * d, dd * bn));
            assert(dd * bn == (pow_int(cw, 2) * bn) * d) by (nonlinear_arith)
                requires
                    dd == d * pow_int(cw, 2),
            ;
            assert(dd * bn != 0) by (nonlinear_arith)
                requires
                    dd > 0,
                    bn != 0,
            ;
            lemma_eqv_trans(result.frac(), (bs * d, dd * bn), (bs, pow_int(cw, 2) * bn));
        }
    }
    if result.is_nan() {
        (T::zero(), true)
    } else {
        (result, false)
    }
}

/// The collision probability of weight `w` given the threshold event; zero
/// where that is a degenerate `0 / 0` ratio.
pub fn prob_b<T: Float>(t: i64, ts: i64, w: i64, p: i64) -> (r: T)
    requires
        0 <= t <= u32::MAX,
        w >= 0,
        p > 1,
    ensures
        pos_frac(r.frac()),
        prob_b_degenerate(t as int, ts as int, w as int, p as int) ==> r.frac().0 == 0,
        !prob_b_degenerate(t as int, ts as int, w as int, p as int) ==> eqv(
            r.frac(),
            prob_b_frac(t as int, ts as int, w as int, p as int),
        ),
{
    prob_b_checked::<T>(t, ts, w, p).0
}

} // verus!

verus! {

/// `Σ_{ws=lo}^{hi-1} C(t - j, ws) C(j, aa - ws) C(j, w - ws)`.
pub open spec fn new_inner_sum(t: int, w: int, j: int, aa: int, lo: int, hi: int) -> int
    decreases hi - lo,
{
    if hi <= lo {
        0
    } else {
        new_inner_sum(t, w, j, aa, lo, hi - 1) + binom_spec(t - j, hi - 1) * binom_spec(
            j,
            aa - (hi - 1),
        ) * binom_spec(j, w - (hi - 1))
    }
}

/// The inner sum of the revised model, over `max(0, aa - j) <= ws <= min(t - j, aa)`.
pub open spec fn new_inner(t: int, w: int, j: int, aa: int) -> int {
    new_inner_sum(
        t,
        w,
        j,
        aa,
        if aa - j < 0 { 0 } else { aa - j },
        (if t - j < aa { t - j } else { aa }) + 1,
    )
}

/// `Σ_{j=lo}^{hi-1} beta_term(t, j, p) new_inner(t, w, j, aa)`.
pub open spec fn new_sum(t: int, w: int, p: int, aa: int, lo: int, hi: int) -> int
    decreases hi - lo,
{
    if hi <= lo {
        0
    } else {
        new_sum(t, w, p, aa, lo, hi - 1) + beta_term(t, hi - 1, p) * new_inner(t, w, hi - 1, aa)
    }
}

/// The quantity that the revised model maximises over `aa`:
/// `Σ_{j=ts}^{t} C(t,j) q^j (1-q)^(t-j) new_inner(j, aa) / C(t, aa)`.
pub open spec fn aux_frac(t: int, ts: int, w: int, p: int, aa: int) -> Frac {
    (
        new_sum(t, w, p, aa, if ts < 0 { 0 } else { ts }, t + 1),
        pow_int(p - 1, t as nat) * binom_spec(t, aa),
    )
}

/// The revised probability for the auxiliary weight `aa`:
/// `aux_frac(aa) / (P(X >= ts) C(t, w))`.
pub open spec fn prob_b_new_frac(t: int, ts: int, w: int, p: int, aa: int) -> Frac {
    (
        new_sum(t, w, p, aa, if ts < 0 { 0 } else { ts }, t + 1),
        binom_spec(t, aa) * beta_num(t, ts, p) * binom_spec(t, w),
    )
}

/// `aa` maximises `aux_frac` over `[w, t]`; on ties the largest such `aa`.
pub open spec fn is_last_argmax(t: int, ts: int, w: int, p: int, aa: int) -> bool {
    &&& w <= aa <= t
    &&& forall|a: int|
        w <= a <= t ==> #[trigger] rle(aux_frac(t, ts, w, p, a), aux_frac(t, ts, w, p, aa))
    &&& forall|a: int|
        aa < a <= t ==> !#[trigger] rle(aux_frac(t, ts, w, p, aa), aux_frac(t, ts, w, p, a))
}

/// The terms `C(t, j) q^j (1 - q)^(t - j)` for `j` in `lo..=t`, at index `j - lo`.
fn threshold_terms<T: Float>(t: i64, lo: i64, p: i64, inv: &T, omq: &T) -> (r: Vec<T>)
    requires
        0 <= lo,
        0 <= t <= u32::MAX,
        p > 1,
        pos_frac(inv.frac()),
        pos_frac(omq.frac()),
        eqv(inv.frac(), (1, p - 1)),
        eqv(omq.frac(), (p - 2, p - 1)),
    ensures
        r.len() == (if lo <= t { t + 1 - lo } else { 0 }),
        forall|i: int|
            0 <= i < r.len() ==> is_value(
                #[trigger] r@[i].frac(),
                beta_term(t as int, lo + i, p as int),
                pow_int(p - 1, t as nat),
            ),
{
    let mut terms: Vec<T> = Vec::new();
    let mut j: i64 = lo;
    while j <= t
        invariant
            0 <= lo <= j,
            j <= t + 1 || j == lo,
            t <= u32::MAX,
            p > 1,
            pos_frac(inv.frac()),
            pos_frac(omq.frac()),
            eqv(inv.frac(), (1, p - 1)),
            eqv(omq.frac(), (p - 2, p - 1)),
            terms.len() == j - lo,
            forall|i: int|
                0 <= i < terms.len() ==> is_value(
                    #[trigger] terms@[i].frac(),
                    beta_term(t as int, lo + i, p as int),
                    pow_int(p - 1, t as nat),
                ),
        decreases t + 1 - j,
    {
        let x = threshold_term::<T>(t, j, p, inv, omq);
        let ghost before = terms@;
        terms.push(x);
        proof {
            assert(terms@ == before.push(x));
            assert forall|i: int| 0 <= i < before.len() implies terms@[i] == before[i] by {}
        }
        j = j + 1;
    }
    terms
}

/// `C(t - j, ws) C(j, aa - ws) C(j, w - ws)` as computed.
fn new_inner_term<T: Float>(
    rows: &Vec<Vec<T>>,
    zero: &T,
    t: i64,
    w: i64,
    j: i64,
    aa: i64,
    ws: i64,
) -> (r: T)
    requires
        is_pascal_rows(rows@, t as int),
        pos_frac(zero.frac()),
        zero.frac().0 == 0,
        0 <= j <= t,
        0 <= ws <= aa,
        0 <= w,
    ensures
        is_value(
            r.frac(),
            (binom_spec(t - j, ws as int) * binom_spec(j as int, aa - ws) * binom_spec(
                j as int,
                w - ws,
            )) as int,
            1,
        ),
{
    let a = table_binom(rows, t, zero, t - j, ws);
    let b = table_binom(rows, t, zero, j, aa - ws);
    let c = table_binom(rows, t, zero, j, w - ws);
    let ab = a.mul(b);
    let r = ab.mul(c);
    proof {
        let av = binom_spec(t - j, ws as int) as int;
        let bv = binom_spec(j as int, aa - ws) as int;
        let cv = binom_spec(j as int, w - ws) as int;
        lemma_mul_vals(a.frac(), b.frac(), ab.frac(), (av, 1), (bv, 1));
        lemma_mul_vals(ab.frac(), c.frac(), r.frac(), (av * bv, 1), (cv, 1));
    }
    r
}

/// The inner sum of the revised model for one `j` and `aa`.
fn new_inner_value<T: Float>(rows: &Vec<Vec<T>>, zero: &T, t: i64, w: i64, j: i64, aa: i64) -> (r:
    T)
    requires
        is_pascal_rows(rows@, t as int),
        pos_frac(zero.frac()),
        zero.frac().0 == 0,
        0 <= j <= t <= u32::MAX,
        0 <= w <= aa <= t,
    ensures
        is_value(r.frac(), new_inner(t as int, w as int, j as int, aa as int), 1),
{
    let lo: i64 = if aa - j < 0 { 0 } else { aa - j };
    let hi: i64 = if t - j < aa { t - j } else { aa };
    let mut acc = T::zero();
    proof {
        assert(eqv(acc.frac(), (0, 1))) by (nonlinear_arith)
            requires
                acc.frac().0 == 0,
        ;
    }
    if lo > hi {
        return acc;
    }
    let mut ws: i64 = lo;
    while ws <= hi
        invariant
            is_pascal_rows(rows@, t as int),
            pos_frac(zero.frac()),
            zero.frac().0 == 0,
            0 <= j <= t <= u32::MAX,
            0 <= w <= aa <= t,
            0 <= lo <= ws <= hi + 1,
            hi <= aa,
            lo == (if aa - j < 0 { 0 } else { aa - j }),
            hi == (if t - j < aa { t - j } else { aa as int }),
            is_value(
                acc.frac(),
                new_inner_sum(t as int, w as int, j as int, aa as int, lo as int, ws as int),
                1,
            ),
        decreases hi + 1 - ws,
    {
        let x = new_inner_term::<T>(rows, zero, t, w, j, aa, ws);
        let ghost a0 = acc.frac();
        acc.add_assign(&x);
        proof {
            lemma_accumulate(
                a0,
                x.frac(),
                acc.frac(),
                new_inner_sum(t as int, w as int, j as int, aa as int, lo as int, ws as int),
                (binom_spec(t - j, ws as int) * binom_spec(j as int, aa - ws) * binom_spec(
                    j as int,
                    w - ws,
                )) as int,
                1,
            );
        }
        ws = ws + 1;
    }
    acc
}

/// `aux_frac(aa)` as computed, from the threshold terms for `j` in `lo..=t`.
fn aux_value<T: Float>(
    rows: &Vec<Vec<T>>,
    zero: &T,
    terms: &Vec<T>,
    t: i64,
    ts: i64,
    w: i64,
    p: i64,
    aa: i64,
) -> (r: T)
    requires
        is_pascal_rows(rows@, t as int),
        pos_frac(zero.frac()),
        zero.frac().0 == 0,
        0 <= t <= u32::MAX,
        0 <= w <= aa <= t,
        p > 1,
        terms.len() == (if (if ts < 0 { 0 } else { ts as int }) <= t {
            t + 1 - (if ts < 0 { 0 } else { ts as int })
        } else {
            0
        }),
        forall|i: int|
            0 <= i < terms.len() ==> is_value(
                #[trigger] terms@[i].frac(),
                beta_term(t as int, (if ts < 0 { 0 } else { ts as int }) + i, p as int),
                pow_int(p - 1, t as nat),
            ),
    ensures
        is_value(
            r.frac(),
            aux_frac(t as int, ts as int, w as int, p as int, aa as int).0,
            aux_frac(t as int, ts as int, w as int, p as int, aa as int).1,
        ),
{
    let ghost d = pow_int(p - 1, t as nat);
    let lo: i64 = if ts < 0 { 0 } else { ts };
    let mut sum = T::zero();
    proof {
        lemma_pow_sign(p - 1, t as nat);
        assert(eqv(sum.frac(), (0, d))) by (nonlinear_arith)
            requires
                sum.frac().0 == 0,
        ;
    }
    let mut j: i64 = lo;
    while j <= t
        invariant
            is_pascal_rows(rows@, t as int),
            pos_frac(zero.frac()),
            zero.frac().0 == 0,
            0 <= lo <= j,
            j <= t + 1 || j == lo,
            t <= u32::MAX,
            0 <= w <= aa <= t,
            p > 1,
            lo == (if ts < 0 { 0 } else { ts }),
            terms.len() == (if lo <= t { t + 1 - lo } else { 0 }),
            forall|i: int|
                0 <= i < terms.len() ==> is_value(
                    #[trigger] terms@[i].frac(),
                    beta_term(t as int, lo + i, p as int),
                    pow_int(p - 1, t as nat),
                ),
            d == pow_int(p - 1, t as nat),
            d > 0,
            is_value(sum.frac(), new_sum(t as int, w as int, p as int, aa as int, lo as int, j as int), d),
        decreases t + 1 - j,
    {
        let term = &terms[(j - lo) as usize];
        let inn = new_inner_value::<T>(rows, zero, t, w, j, aa);
        let x = term.mul(&inn);
        proof {
            let bt = beta_term(t as int, j as int, p as int);
            let iv = new_inner(t as int, w as int, j as int, aa as int);
            assert(is_value(terms@[j - lo].frac(), bt, d));
            lemma_mul_vals(term.frac(), inn.frac(), x.frac(), (bt, d), (iv, 1));
            assert(eqv((bt * iv, d * 1), (bt * iv, d))) by (nonlinear_arith);
            lemma_eqv_trans(x.frac(), (bt * iv, d * 1), (bt * iv, d));
        }
        let ghost s0 = sum.frac();
        sum.add_assign(&x);
        proof {
            lemma_accumulate(
                s0,
                x.frac(),
                sum.frac(),
                new_sum(t as int, w as int, p as int, aa as int, lo as int, j as int),
                beta_term(t as int, j as int, p as int) * new_inner(t as int, w as int, j as int, aa as int),
                d,
            );
        }
        j = j + 1;
    }
    let c = table_binom(rows, t, zero, t, aa);
    let r = sum.div(c);
    proof {
        let s = new_sum(t as int, w as int, p as int, aa as int, lo as int, t + 1);
        assert(new_sum(t as int, w as int, p as int, aa as int, lo as int, j as int) == s) by {
            if lo > t {
                assert(j == lo);
            }
        }
        let cv = binom_spec(t as int, aa as int) as int;
        crate::combin::lemma_binom_pos(t as int, aa as int);
        lemma_eqv_int(c.frac(), cv);
        assert(c.frac().0 > 0) by (nonlinear_arith)
            requires
                c.frac().0 == cv * c.frac().1,
                cv > 0,
                c.frac().1 > 0,
        ;
        lemma_div_vals(sum.frac(), c.frac(), r.frac(), (s, d), (cv, 1));
        assert(eqv((s * 1, d * cv), (s, d * cv))) by (nonlinear_arith);
        assert(d * cv > 0) by (nonlinear_arith)
            requires
                d > 0,
                cv > 0,
        ;
        lemma_eqv_trans(r.frac(), (s * 1, d * cv), (s, d * cv));
    }
    r
}

/// The revised collision probability: the auxiliary weight `aa` in `[w, t]`
/// that maximises `aux_frac` (the largest on ties), the probability for it
/// normalised by `P(X >= ts) C(t, w)`, and whether that was a degenerate
/// `0 / 0` ratio, then reported as zero (a warning). With `w > t` there is no
/// candidate: the result is `(w, 0)`, flagged degenerate.
pub fn prob_b_new_checked<T: Float>(t: i64, ts: i64, w: i64, p: i64) -> (r: (i64, T, bool))
    requires
        0 <= t <= u32::MAX,
        w >= 0,
        p > 1,
    ensures
        pos_frac(r.1.frac()),
        w > t ==> r.0 == w && r.2,
        w <= t ==> is_last_argmax(t as int, ts as int, w as int, p as int, r.0 as int),
        w <= t ==> r.2 == (beta_num(t as int, ts as int, p as int) == 0),
        r.2 ==> r.1.frac().0 == 0,
        !r.2 ==> eqv(r.1.frac(), prob_b_new_frac(t as int, ts as int, w as int, p as int, r.0 as int)),
{
    if w > t {
        return (w, T::zero(), true);
    }
    let (inv, omq) = success_rates::<T>(p);
    let rows = pascal_rows::<T>(t);
    let zero = T::zero();
    let lo: i64 = if ts < 0 { 0 } else { ts };
    let terms = threshold_terms::<T>(t, lo, p, &inv, &omq);
    let mut best_aa: i64 = w;
    let mut best = aux_value::<T>(&rows, &zero, &terms, t, ts, w, p, w);
    proof {
        crate::combin::lemma_binom_pos(t as int, w as int);
        lemma_pow_sign(p - 1, t as nat);
    }
    let mut aa: i64 = w + 1;
    while aa <= t
        invariant
            0 <= w <= best_aa < aa <= t + 1,
            t <= u32::MAX,
            p > 1,
            is_pascal_rows(rows@, t as int),
            pos_frac(zero.frac()),
            zero.frac().0 == 0,
            lo == (if ts < 0 { 0 } else { ts }),
            terms.len() == (if lo <= t { t + 1 - lo } else { 0 }),
            forall|i: int|
                0 <= i < terms.len() ==> is_value(
                    #[trigger] terms@[i].frac(),
                    beta_term(t as int, lo + i, p as int),
                    pow_int(p - 1, t as nat),
                ),
            is_value(
                best.frac(),
                aux_frac(t as int, ts as int, w as int, p as int, best_aa as int).0,
                aux_frac(t as int, ts as int, w as int, p as int, best_aa as int).1,
            ),
            forall|a: int|
                w <= a < aa ==> #[trigger] rle(
                    aux_frac(t as int, ts as int, w as int, p as int, a),
                    aux_frac(t as int, ts as int, w as int, p as int, best_aa as int),
                ),
            forall|a: int|
                best_aa < a < aa ==> !#[trigger] rle(
                    aux_frac(t as int, ts as int, w as int, p as int, best_aa as int),
                    aux_frac(t as int, ts as int, w as int, p as int, a),
                ),
        decreases t + 1 - aa,
    {
        let v = aux_value::<T>(&rows, &zero, &terms, t, ts, w, p, aa);
        let take = best.le(&v);
        proof {
            let fb = aux_frac(t as int, ts as int, w as int, p as int, best_aa as int);
            let fv = aux_frac(t as int, ts as int, w as int, p as int, aa as int);
            lemma_rle_cong(best.frac(), v.frac(), fb, fv);
            if take {
                assert forall|a: int| w <= a < aa + 1 implies #[trigger] rle(
                    aux_frac(t as int, ts as int, w as int, p as int, a),
                    fv,
                ) by {
                    let fa = aux_frac(t as int, ts as int, w as int, p as int, a);
                    if a < aa {
                        crate::combin::lemma_binom_pos(t as int, a);
                        lemma_pow_sign(p - 1, t as nat);
                        assert(fa.1 > 0) by (nonlinear_arith)
                            requires
                                fa.1 == pow_int(p - 1, t as nat) * binom_spec(t as int, a),
                                pow_int(p - 1, t as nat) > 0,
                                binom_spec(t as int, a) > 0,
                        ;
                        lemma_rle_trans(fa, fb, fv);
                    }
                }
            } else {
                assert(rle(fv, fb)) by (nonlinear_arith)
                    requires
                        !rle(fb, fv),
                ;
            }
        }
        if take {
            best = v;
            best_aa = aa;
        }
        aa = aa + 1;
    }
    let beta = prob_beta::<T>(t, ts, p);
    let bw = binom::<T>(t, w);
    let norm = beta.mul(&bw);
    let prob = best.div(&norm);
    proof {
        let d = pow_int(p - 1, t as nat);
        let bn = beta_num(t as int, ts as int, p as int);
        let cw = binom_spec(t as int, w as int) as int;
        let fb = aux_frac(t as int, ts as int, w as int, p as int, best_aa as int);
        let ca = binom_spec(t as int, best_aa as int) as int;
        crate::combin::lemma_binom_pos(t as int, best_aa as int);
        lemma_mul_vals(beta.frac(), bw.frac(), norm.frac(), (bn, d), (cw, 1));
        lemma_eqv_int(bw.frac(), cw);
        assert(bn >= 0) by {
            let lo = if ts < 0 { 0 } else { ts as int };
            lemma_beta_sum_mono(t as int, p as int, lo, lo, t + 1);
        }
        assert((norm.frac().0 == 0) == (bn == 0)) by (nonlinear_arith)
            requires
                norm.frac().0 * (d * 1) == (bn * cw) * norm.frac().1,
                norm.frac().1 > 0,
                d > 0,
                cw > 0,
        ;
        if bn != 0 {
            lemma_div_vals(best.frac(), norm.frac(), prob.frac(), fb, (bn * cw, d * 1));
            assert(rdiv(fb, (bn * cw, d * 1)) == (fb.0 * (d * 1), fb.1 * (bn * cw)));
            assert(fb.1 * (bn * cw) == (ca * bn * cw) * d) by (nonlinear_arith)
                requires
                    fb.1 == d * ca,
            ;
            assert(fb.0 * (d * 1) == fb.0 * d) by (nonlinear_arith);
            lemma_eqv_cancel(fb.0, ca * bn * cw, d);
            assert(fb.1 * (bn * cw) != 0) by (nonlinear_arith)
                requires
                    fb.1 == d * ca,
                    d > 0,
                    ca > 0,
                    cw > 0,
                    bn != 0,
            ;
            lemma_eqv_trans(prob.frac(), (fb.0 * d, (ca * bn * cw) * d), (fb.0, ca * bn * cw));
        }
    }
    if prob.is_nan() {
        (best_aa, T::zero(), true)
    } else {
        (best_aa, prob, false)
    }
}

/// The revised collision probability with its maximising auxiliary weight;
/// the probability is zero where it is a degenerate `0 / 0` ratio.
pub fn prob_b_new<T: Float>(t: i64, ts: i64, w: i64, p: i64) -> (r: (i64, T))
    requires
        0 <= t <= u32::MAX,
        w >= 0,
        p > 1,
    ensures
        pos_frac(r.1.frac()),
        w <= t ==> is_last_argmax(t as int, ts as int, w as int, p as int, r.0 as int),
        w > t ==> r.0 == w && r.1.frac().0 == 0,
        w <= t && beta_num(t as int, ts as int, p as int) == 0 ==> r.1.frac().0 == 0,
        w <= t && beta_num(t as int, ts as int, p as int) != 0 ==> eqv(
            r.1.frac(),
            prob_b_new_frac(t as int, ts as int, w as int, p as int, r.0 as int),
        ),
{
    let (aa, prob, _) = prob_b_new_checked::<T>(t, ts, w, p);
    (aa, prob)
}

} // verus!

verus! {

/// Results agree exactly: two values that each equal the same probability (as
/// `prob_beta`, `prob_b` and `prob_b_new` promise of their result, on every
/// conforming backend and on every call) equal each other.
pub proof fn lemma_results_agree(x: Frac, y: Frac, v: Frac)
    requires
        v.1 != 0,
        eqv(x, v),
        eqv(y, v),
    ensures
        eqv(x, y),
{
    lemma_eqv_trans(x, v, y);
}

} // verus!
