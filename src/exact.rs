//! An exact backend: a non-negative rational number held as a reduced
//! numerator and denominator of arbitrary size.
use crate::bignat::{nat_add, nat_div, nat_gcd, nat_is_zero, nat_le, nat_mul, nat_sub, words_value, Nat};
use crate::float::{Float, FloatAssignOps, FloatOps, MulDivAssign};
use crate::rational::{
    eqv, lemma_eqv_reduce, lemma_eqv_trans, lemma_pos_ops, lemma_rmul_cong, pos_frac, rmul, rpow,
    Frac,
};
use vstd::prelude::*;

verus! {

/// A non-negative rational number `num / den`; `den == 0` marks a degenerate
/// value.
pub struct ExactNum {
    num: Nat,
    den: Nat,
}

proof fn lemma_quotient_pos(y: int, g: int)
    requires
        y > 0,
        g > 0,
        y % g == 0,
    ensures
        y / g > 0,
{
    vstd::arithmetic::div_mod::lemma_fundamental_div_mod(y, g);
    if y / g <= 0 {
        assert(g * (y / g) <= 0) by (nonlinear_arith)
            requires
                g > 0,
                y / g <= 0,
        ;
    }
}

proof fn lemma_pos_product(a: int, b: int)
    requires
        a > 0,
        b > 0,
    ensures
        a * b > 0,
{
    assert(a * b > 0) by (nonlinear_arith)
        requires
            a > 0,
            b > 0,
    ;
}

impl ExactNum {
    /// The fraction `x / y` in lowest terms; as given where `y` is zero.
    fn reduced(x: Nat, y: Nat) -> (r: ExactNum)
        ensures
            eqv(r.frac(), (x@ as int, y@ as int)),
            y@ > 0 ==> pos_frac(r.frac()),
            y@ == 0 ==> r.frac().1 == 0,
    {
        if nat_is_zero(&y) {
            ExactNum { num: x, den: y }
        } else {
            let g = nat_gcd(&x, &y);
            let n = nat_div(&x, &g);
            let d = nat_div(&y, &g);
            proof {
                lemma_eqv_reduce(x@ as int, y@ as int, g@ as int);
                lemma_quotient_pos(y@ as int, g@ as int);
            }
            ExactNum { num: n, den: d }
        }
    }

    /// The words of the numerator, least significant first.
    pub fn numerator_words(&self) -> (r: Vec<u64>)
        ensures
            words_value(r@) == self.frac().0,
    {
        self.num.words.clone()
    }

    /// The words of the denominator, least significant first.
    pub fn denominator_words(&self) -> (r: Vec<u64>)
        ensures
            words_value(r@) == self.frac().1,
    {
        self.den.words.clone()
    }
}

impl FloatOps for ExactNum {
    closed spec fn frac(&self) -> Frac {
        (self.num@ as int, self.den@ as int)
    }

    fn add(&self, rhs: &Self) -> (r: Self) {
        let x = nat_add(&nat_mul(&self.num, &rhs.den), &nat_mul(&rhs.num, &self.den));
        let y = nat_mul(&self.den, &rhs.den);
        proof {
            lemma_pos_product(self.den@ as int, rhs.den@ as int);
        }
        ExactNum::reduced(x, y)
    }

    fn sub(&self, rhs: &Self) -> (r: Self) {
        let a = nat_mul(&self.num, &rhs.den);
        let b = nat_mul(&rhs.num, &self.den);
        let x = nat_sub(&a, &b);
        let y = nat_mul(&self.den, &rhs.den);
        proof {
            lemma_pos_product(self.den@ as int, rhs.den@ as int);
        }
        ExactNum::reduced(x, y)
    }

    fn mul(&self, rhs: &Self) -> (r: Self) {
        let x = nat_mul(&self.num, &rhs.num);
        let y = nat_mul(&self.den, &rhs.den);
        proof {
            lemma_pos_product(self.den@ as int, rhs.den@ as int);
        }
        ExactNum::reduced(x, y)
    }

    fn div(&self, rhs: &Self) -> (r: Self) {
        let x = nat_mul(&self.num, &rhs.den);
        let y = nat_mul(&self.den, &rhs.num);
        proof {
            if rhs.num@ > 0 {
                lemma_pos_product(self.den@ as int, rhs.num@ as int);
            }
        }
        ExactNum::reduced(x, y)
    }
}

impl FloatAssignOps for ExactNum {
    fn add_assign(&mut self, rhs: &Self) {
        *self = FloatOps::add(&*self, rhs);
    }

    fn sub_assign(&mut self, rhs: &Self) {
        *self = FloatOps::sub(&*self, rhs);
    }

    fn mul_assign(&mut self, rhs: &Self) {
        *self = FloatOps::mul(&*self, rhs);
    }

    fn div_assign(&mut self, rhs: &Self) {
        *self = FloatOps::div(&*self, rhs);
    }
}

impl MulDivAssign for ExactNum {
    /// Fused: one reduction of `num * mul.num * div.den / (den * mul.den * div.num)`.
    fn mul_div_assign(&mut self, mul: &Self, div: &Self) {
        let x = nat_mul(&nat_mul(&self.num, &mul.num), &div.den);
        let y = nat_mul(&nat_mul(&self.den, &mul.den), &div.num);
        proof {
            lemma_pos_product(self.den@ as int, mul.den@ as int);
            lemma_pos_product((self.den@ * mul.den@) as int, div.num@ as int);
        }
        *self = ExactNum::reduced(x, y);
    }
}

impl Float for ExactNum {
    fn zero() -> (r: Self) {
        ExactNum { num: Nat::from_u64(0), den: Nat::from_u64(1) }
    }

    fn one() -> (r: Self) {
        ExactNum { num: Nat::from_u64(1), den: Nat::from_u64(1) }
    }

    fn from_i64(v: i64) -> (r: Self) {
        ExactNum { num: Nat::from_u64(v as u64), den: Nat::from_u64(1) }
    }

    fn is_zero(&self) -> (r: bool) {
        nat_is_zero(&self.num)
    }

    fn is_one(&self) -> (r: bool) {
        nat_le(&self.num, &self.den) && nat_le(&self.den, &self.num)
    }

    fn set_zero(&mut self) {
        *self = ExactNum::zero();
    }

    fn set_one(&mut self) {
        *self = ExactNum::one();
    }

    fn pow(&self, exp: u32) -> (r: Self) {
        let mut r = ExactNum::one();
        let mut i: u32 = 0;
        while i < exp
            invariant
                i <= exp,
                pos_frac(self.frac()),
                pos_frac(r.frac()),
                eqv(r.frac(), rpow(self.frac(), i as nat)),
            decreases exp - i,
        {
            let next = FloatOps::mul(&r, self);
            proof {
                lemma_rmul_cong(r.frac(), self.frac(), rpow(self.frac(), i as nat), self.frac());
                lemma_pos_ops(r.frac(), self.frac());
                lemma_eqv_trans(next.frac(), rmul(r.frac(), self.frac()), rpow(self.frac(), (i + 1) as nat));
            }
            r = next;
            i = i + 1;
        }
        r
    }

    fn is_nan(&self) -> (r: bool) {
        nat_is_zero(&self.den)
    }

    fn le(&self, rhs: &Self) -> (r: bool) {
        nat_le(&nat_mul(&self.num, &rhs.den), &nat_mul(&rhs.num, &self.den))
    }
}

} // verus!
