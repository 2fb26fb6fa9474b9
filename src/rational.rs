//! The mathematical model of a number: a fraction `(numerator, denominator)`.
//!
//! Two fractions stand for the same rational number when they are `eqv`.
//! A denominator of zero marks a degenerate (not-a-number) value.
use vstd::prelude::*;

verus! {

/// A fraction `(numerator, denominator)`.
pub type Frac = (int, int);

pub open spec fn eqv(a: Frac, b: Frac) -> bool {
    a.0 * b.1 == b.0 * a.1
}

pub open spec fn radd(a: Frac, b: Frac) -> Frac {
    (a.0 * b.1 + b.0 * a.1, a.1 * b.1)
}

pub open spec fn rsub(a: Frac, b: Frac) -> Frac {
    (a.0 * b.1 - b.0 * a.1, a.1 * b.1)
}

pub open spec fn rmul(a: Frac, b: Frac) -> Frac {
    (a.0 * b.0, a.1 * b.1)
}

pub open spec fn rdiv(a: Frac, b: Frac) -> Frac {
    (a.0 * b.1, a.1 * b.0)
}

/// `a <= b`, meaningful for positive denominators.
pub open spec fn rle(a: Frac, b: Frac) -> bool {
    a.0 * b.1 <= b.0 * a.1
}

pub open spec fn rint(i: int) -> Frac {
    (i, 1)
}

pub open spec fn rpow(a: Frac, e: nat) -> Frac
    decreases e,
{
    if e == 0 {
        rint(1)
    } else {
        rmul(rpow(a, (e - 1) as nat), a)
    }
}

/// A fraction with a non-negative numerator and a positive denominator.
pub open spec fn pos_frac(a: Frac) -> bool {
    a.0 >= 0 && a.1 > 0
}

pub proof fn lemma_eqv_trans(a: Frac, b: Frac, c: Frac)
    requires
        eqv(a, b),
        eqv(b, c),
        b.1 != 0,
    ensures
        eqv(a, c),
{
    assert((a.0 * c.1) * b.1 == (c.0 * a.1) * b.1) by (nonlinear_arith)
        requires
            a.0 * b.1 == b.0 * a.1,
            b.0 * c.1 == c.0 * b.1,
    ;
    assert(a.0 * c.1 == c.0 * a.1) by (nonlinear_arith)
        requires
            (a.0 * c.1) * b.1 == (c.0 * a.1) * b.1,
            b.1 != 0,
    ;
}

pub proof fn lemma_radd_cong(a: Frac, b: Frac, x: Frac, y: Frac)
    requires
        eqv(a, x),
        eqv(b, y),
    ensures
        eqv(radd(a, b), radd(x, y)),
{
    assert((a.0 * b.1) * (x.1 * y.1) == (x.0 * y.1) * (a.1 * b.1)) by (nonlinear_arith)
        requires
            a.0 * x.1 == x.0 * a.1,
    ;
    assert((b.0 * a.1) * (x.1 * y.1) == (y.0 * x.1) * (a.1 * b.1)) by (nonlinear_arith)
        requires
            b.0 * y.1 == y.0 * b.1,
    ;
    assert((a.0 * b.1 + b.0 * a.1) * (x.1 * y.1) == (a.0 * b.1) * (x.1 * y.1) + (b.0 * a.1) * (
    x.1 * y.1)) by (nonlinear_arith);
    assert((x.0 * y.1 + y.0 * x.1) * (a.1 * b.1) == (x.0 * y.1) * (a.1 * b.1) + (y.0 * x.1) * (
    a.1 * b.1)) by (nonlinear_arith);
}

pub proof fn lemma_rmul_cong(a: Frac, b: Frac, x: Frac, y: Frac)
    requires
        eqv(a, x),
        eqv(b, y),
    ensures
        eqv(rmul(a, b), rmul(x, y)),
{
    assert((a.0 * b.0) * (x.1 * y.1) == (x.0 * y.0) * (a.1 * b.1)) by (nonlinear_arith)
        requires
            a.0 * x.1 == x.0 * a.1,
            b.0 * y.1 == y.0 * b.1,
    ;
}

pub proof fn lemma_rdiv_cong(a: Frac, b: Frac, x: Frac, y: Frac)
    requires
        eqv(a, x),
        eqv(b, y),
    ensures
        eqv(rdiv(a, b), rdiv(x, y)),
{
    assert((a.0 * b.1) * (x.1 * y.0) == (x.0 * y.1) * (a.1 * b.0)) by (nonlinear_arith)
        requires
            a.0 * x.1 == x.0 * a.1,
            b.0 * y.1 == y.0 * b.1,
    ;
}

/// Dividing numerator and denominator by a common factor keeps the value.
pub proof fn lemma_eqv_reduce(x: int, y: int, g: int)
    requires
        g > 0,
        x % g == 0,
        y % g == 0,
    ensures
        eqv((x / g, y / g), (x, y)),
{
    vstd::arithmetic::div_mod::lemma_fundamental_div_mod(x, g);
    vstd::arithmetic::div_mod::lemma_fundamental_div_mod(y, g);
    let qx = x / g;
    let qy = y / g;
    assert(qx * (g * qy) == (g * qx) * qy) by (nonlinear_arith);
}

pub proof fn lemma_pos_ops(a: Frac, b: Frac)
    requires
        pos_frac(a),
        pos_frac(b),
    ensures
        pos_frac(radd(a, b)),
        pos_frac(rmul(a, b)),
        b.0 > 0 ==> pos_frac(rdiv(a, b)),
{
    assert(a.0 * b.1 >= 0 && b.0 * a.1 >= 0 && a.1 * b.1 > 0 && a.0 * b.0 >= 0) by (nonlinear_arith)
        requires
            pos_frac(a),
            pos_frac(b),
    ;
    assert(b.0 > 0 ==> a.1 * b.0 > 0) by (nonlinear_arith)
        requires
            pos_frac(a),
            pos_frac(b),
    ;
}

} // verus!

verus! {

/// A fraction equal to the integer `i` has numerator `i` times its denominator.
pub proof fn lemma_eqv_int(a: Frac, i: int)
    requires
        eqv(a, rint(i)),
    ensures
        a.0 == i * a.1,
{
}

pub proof fn lemma_add_ints(a: Frac, b: Frac, x: Frac, i: int, j: int)
    requires
        a.1 > 0,
        b.1 > 0,
        eqv(a, rint(i)),
        eqv(b, rint(j)),
        eqv(x, radd(a, b)),
    ensures
        eqv(x, rint(i + j)),
{
    let s = radd(a, b);
    lemma_eqv_int(a, i);
    lemma_eqv_int(b, j);
    assert(s.0 == (i + j) * s.1) by (nonlinear_arith)
        requires
            a.0 == i * a.1,
            b.0 == j * b.1,
            s == radd(a, b),
    ;
    assert(s.1 > 0) by (nonlinear_arith)
        requires
            a.1 > 0,
            b.1 > 0,
            s == radd(a, b),
    ;
    assert(eqv(s, rint(i + j))) by (nonlinear_arith)
        requires
            s.0 == (i + j) * s.1,
    ;
    lemma_eqv_trans(x, s, rint(i + j));
}

pub proof fn lemma_sub_ints(a: Frac, b: Frac, x: Frac, i: int, j: int)
    requires
        a.1 > 0,
        b.1 > 0,
        eqv(a, rint(i)),
        eqv(b, rint(j)),
        eqv(x, rsub(a, b)),
    ensures
        eqv(x, rint(i - j)),
{
    let s = rsub(a, b);
    lemma_eqv_int(a, i);
    lemma_eqv_int(b, j);
    assert(s.0 == (i - j) * s.1) by (nonlinear_arith)
        requires
            a.0 == i * a.1,
            b.0 == j * b.1,
            s == rsub(a, b),
    ;
    assert(s.1 > 0) by (nonlinear_arith)
        requires
            a.1 > 0,
            b.1 > 0,
            s == rsub(a, b),
    ;
    assert(eqv(s, rint(i - j))) by (nonlinear_arith)
        requires
            s.0 == (i - j) * s.1,
    ;
    lemma_eqv_trans(x, s, rint(i - j));
}

/// `x == a * m / d` where `a`, `m`, `d` equal the integers `i`, `j`, `k`.
pub proof fn lemma_mul_div_ints(a: Frac, m: Frac, d: Frac, x: Frac, i: int, j: int, k: int)
    requires
        a.1 > 0,
        m.1 > 0,
        d.1 > 0,
        k > 0,
        eqv(a, rint(i)),
        eqv(m, rint(j)),
        eqv(d, rint(k)),
        eqv(x, rdiv(rmul(a, m), d)),
    ensures
        eqv(x, (i * j, k)),
{
    let s = rdiv(rmul(a, m), d);
    let c = a.1 * m.1 * d.1;
    lemma_eqv_int(a, i);
    lemma_eqv_int(m, j);
    lemma_eqv_int(d, k);
    assert(c > 0) by (nonlinear_arith)
        requires
            a.1 > 0,
            m.1 > 0,
            d.1 > 0,
            c == a.1 * m.1 * d.1,
    ;
    assert(s.0 == (i * j) * c && s.1 == k * c) by (nonlinear_arith)
        requires
            a.0 == i * a.1,
            m.0 == j * m.1,
            d.0 == k * d.1,
            s == rdiv(rmul(a, m), d),
            c == a.1 * m.1 * d.1,
    ;
    assert(x.0 * s.1 == s.0 * x.1);
    assert((x.0 * k) * c == ((i * j) * x.1) * c) by (nonlinear_arith)
        requires
            x.0 * s.1 == s.0 * x.1,
            s.0 == (i * j) * c,
            s.1 == k * c,
    ;
    assert(x.0 * k == (i * j) * x.1) by (nonlinear_arith)
        requires
            (x.0 * k) * c == ((i * j) * x.1) * c,
            c > 0,
    ;
}

} // verus!

verus! {

pub open spec fn pow_int(b: int, e: nat) -> int
    decreases e,
{
    if e == 0 {
        1
    } else {
        b * pow_int(b, (e - 1) as nat)
    }
}

pub proof fn lemma_pow_add(b: int, m: nat, n: nat)
    ensures
        pow_int(b, m) * pow_int(b, n) == pow_int(b, m + n),
    decreases m,
{
    if m > 0 {
        lemma_pow_add(b, (m - 1) as nat, n);
        assert(pow_int(b, (m + n) as nat) == b * pow_int(b, (m - 1 + n) as nat));
        assert(b * pow_int(b, (m - 1) as nat) * pow_int(b, n) == b * (pow_int(b, (m - 1) as nat)
            * pow_int(b, n))) by (nonlinear_arith);
    }
}

pub proof fn lemma_pow_sign(b: int, e: nat)
    ensures
        b >= 0 ==> pow_int(b, e) >= 0,
        b > 0 ==> pow_int(b, e) > 0,
        b == 1 ==> pow_int(b, e) == 1,
    decreases e,
{
    if e > 0 {
        lemma_pow_sign(b, (e - 1) as nat);
        assert(b >= 0 ==> b * pow_int(b, (e - 1) as nat) >= 0) by (nonlinear_arith)
            requires
                b >= 0 ==> pow_int(b, (e - 1) as nat) >= 0,
        ;
        assert(b > 0 ==> b * pow_int(b, (e - 1) as nat) > 0) by (nonlinear_arith)
            requires
                b > 0 ==> pow_int(b, (e - 1) as nat) > 0,
        ;
    }
}

pub proof fn lemma_rpow_pair(x: int, y: int, e: nat)
    ensures
        rpow((x, y), e) == (pow_int(x, e), pow_int(y, e)),
    decreases e,
{
    if e > 0 {
        lemma_rpow_pair(x, y, (e - 1) as nat);
        assert(pow_int(x, (e - 1) as nat) * x == x * pow_int(x, (e - 1) as nat)) by (nonlinear_arith);
        assert(pow_int(y, (e - 1) as nat) * y == y * pow_int(y, (e - 1) as nat)) by (nonlinear_arith);
    }
}

pub proof fn lemma_rpow_cong(a: Frac, b: Frac, e: nat)
    requires
        eqv(a, b),
    ensures
        eqv(rpow(a, e), rpow(b, e)),
    decreases e,
{
    if e > 0 {
        lemma_rpow_cong(a, b, (e - 1) as nat);
        lemma_rmul_cong(rpow(a, (e - 1) as nat), a, rpow(b, (e - 1) as nat), b);
    }
}

pub proof fn lemma_rsub_cong(a: Frac, b: Frac, x: Frac, y: Frac)
    requires
        eqv(a, x),
        eqv(b, y),
    ensures
        eqv(rsub(a, b), rsub(x, y)),
{
    assert((a.0 * b.1) * (x.1 * y.1) == (x.0 * y.1) * (a.1 * b.1)) by (nonlinear_arith)
        requires
            a.0 * x.1 == x.0 * a.1,
    ;
    assert((b.0 * a.1) * (x.1 * y.1) == (y.0 * x.1) * (a.1 * b.1)) by (nonlinear_arith)
        requires
            b.0 * y.1 == y.0 * b.1,
    ;
    assert((a.0 * b.1 - b.0 * a.1) * (x.1 * y.1) == (a.0 * b.1) * (x.1 * y.1) - (b.0 * a.1) * (
    x.1 * y.1)) by (nonlinear_arith);
    assert((x.0 * y.1 - y.0 * x.1) * (a.1 * b.1) == (x.0 * y.1) * (a.1 * b.1) - (y.0 * x.1) * (
    a.1 * b.1)) by (nonlinear_arith);
}

/// `r == a * b` with `a`, `b` equal to `x`, `y`: then `r` equals `x * y`.
pub proof fn lemma_mul_vals(a: Frac, b: Frac, r: Frac, x: Frac, y: Frac)
    requires
        pos_frac(a),
        pos_frac(b),
        eqv(a, x),
        eqv(b, y),
        eqv(r, rmul(a, b)),
    ensures
        eqv(r, rmul(x, y)),
{
    lemma_pos_ops(a, b);
    lemma_rmul_cong(a, b, x, y);
    lemma_eqv_trans(r, rmul(a, b), rmul(x, y));
}

pub proof fn lemma_add_vals(a: Frac, b: Frac, r: Frac, x: Frac, y: Frac)
    requires
        pos_frac(a),
        pos_frac(b),
        eqv(a, x),
        eqv(b, y),
        eqv(r, radd(a, b)),
    ensures
        eqv(r, radd(x, y)),
{
    lemma_pos_ops(a, b);
    lemma_radd_cong(a, b, x, y);
    lemma_eqv_trans(r, radd(a, b), radd(x, y));
}

pub proof fn lemma_sub_vals(a: Frac, b: Frac, r: Frac, x: Frac, y: Frac)
    requires
        pos_frac(a),
        pos_frac(b),
        eqv(a, x),
        eqv(b, y),
        eqv(r, rsub(a, b)),
    ensures
        eqv(r, rsub(x, y)),
{
    lemma_pos_ops(a, b);
    lemma_rsub_cong(a, b, x, y);
    lemma_eqv_trans(r, rsub(a, b), rsub(x, y));
}

pub proof fn lemma_div_vals(a: Frac, b: Frac, r: Frac, x: Frac, y: Frac)
    requires
        pos_frac(a),
        pos_frac(b),
        b.0 > 0,
        eqv(a, x),
        eqv(b, y),
        eqv(r, rdiv(a, b)),
    ensures
        eqv(r, rdiv(x, y)),
{
    lemma_pos_ops(a, b);
    lemma_rdiv_cong(a, b, x, y);
    lemma_eqv_trans(r, rdiv(a, b), rdiv(x, y));
}

pub proof fn lemma_pow_vals(a: Frac, r: Frac, x: int, y: int, e: nat)
    requires
        eqv(a, (x, y)),
        eqv(r, rpow(a, e)),
        pos_frac(a),
    ensures
        eqv(r, (pow_int(x, e), pow_int(y, e))),
{
    lemma_rpow_cong(a, (x, y), e);
    lemma_rpow_pair(x, y, e);
    lemma_rpow_pair(a.0, a.1, e);
    lemma_pow_sign(a.1, e);
    lemma_eqv_trans(r, rpow(a, e), (pow_int(x, e), pow_int(y, e)));
}

pub proof fn lemma_add_same_den(x: int, y: int, d: int)
    requires
        d != 0,
    ensures
        eqv(radd((x, d), (y, d)), (x + y, d)),
{
    assert((x * d + y * d) * d == (x + y) * (d * d)) by (nonlinear_arith);
}

/// A common factor of numerator and denominator cancels.
pub proof fn lemma_eqv_cancel(x: int, y: int, c: int)
    ensures
        eqv((x * c, y * c), (x, y)),
{
    assert((x * c) * y == x * (y * c)) by (nonlinear_arith);
}

} // verus!

verus! {

/// The order of fractions does not depend on their representatives.
pub proof fn lemma_rle_cong(x: Frac, y: Frac, x2: Frac, y2: Frac)
    requires
        x.1 > 0,
        y.1 > 0,
        x2.1 > 0,
        y2.1 > 0,
        eqv(x, x2),
        eqv(y, y2),
    ensures
        rle(x, y) == rle(x2, y2),
{
    let k = x.1 * y.1;
    let k2 = x2.1 * y2.1;
    assert(k > 0 && k2 > 0) by (nonlinear_arith)
        requires
            x.1 > 0,
            y.1 > 0,
            x2.1 > 0,
            y2.1 > 0,
            k == x.1 * y.1,
            k2 == x2.1 * y2.1,
    ;
    assert((x.0 * y.1) * k2 == (x2.0 * y2.1) * k) by (nonlinear_arith)
        requires
            x.0 * x2.1 == x2.0 * x.1,
            k == x.1 * y.1,
            k2 == x2.1 * y2.1,
    ;
    assert((y.0 * x.1) * k2 == (y2.0 * x2.1) * k) by (nonlinear_arith)
        requires
            y.0 * y2.1 == y2.0 * y.1,
            k == x.1 * y.1,
            k2 == x2.1 * y2.1,
    ;
    assert(rle(x, y) == ((x.0 * y.1) * k2 <= (y.0 * x.1) * k2)) by (nonlinear_arith)
        requires
            k2 > 0,
    ;
    assert(rle(x2, y2) == ((x2.0 * y2.1) * k <= (y2.0 * x2.1) * k)) by (nonlinear_arith)
        requires
            k > 0,
    ;
}

pub proof fn lemma_rle_trans(x: Frac, y: Frac, z: Frac)
    requires
        x.1 > 0,
        y.1 > 0,
        z.1 > 0,
        rle(x, y),
        rle(y, z),
    ensures
        rle(x, z),
{
    assert((x.0 * z.1) * y.1 <= (z.0 * x.1) * y.1) by (nonlinear_arith)
        requires
            x.0 * y.1 <= y.0 * x.1,
            y.0 * z.1 <= z.0 * y.1,
            x.1 > 0,
            z.1 > 0,
    ;
    assert(x.0 * z.1 <= z.0 * x.1) by (nonlinear_arith)
        requires
            (x.0 * z.1) * y.1 <= (z.0 * x.1) * y.1,
            y.1 > 0,
    ;
}

} // verus!
