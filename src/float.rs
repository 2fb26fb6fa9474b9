//! The number abstraction: a high-precision non-negative real number, usable
//! interchangeably across representations.
//!
//! Each value is modelled by a fraction (`frac`); a value whose fraction has a
//! zero denominator is degenerate (not a number), as a `0 / 0` ratio yields.
//! Operations take well-formed operands (`pos_frac`) and promise results equal,
//! as rational numbers, to the exact operation on the models.
use crate::rational::{eqv, pos_frac, radd, rdiv, rint, rle, rmul, rpow, rsub, Frac};
use vstd::prelude::*;

verus! {

/// Generic trait for types implementing basic numeric operations.
pub trait FloatOps: Sized {
    spec fn frac(&self) -> Frac;

    fn add(&self, rhs: &Self) -> (r: Self)
        requires
            pos_frac(self.frac()),
            pos_frac(rhs.frac()),
        ensures
            pos_frac(r.frac()),
            eqv(r.frac(), radd(self.frac(), rhs.frac())),
    ;

    fn sub(&self, rhs: &Self) -> (r: Self)
        requires
            pos_frac(self.frac()),
            pos_frac(rhs.frac()),
            rle(rhs.frac(), self.frac()),
        ensures
            pos_frac(r.frac()),
            eqv(r.frac(), rsub(self.frac(), rhs.frac())),
    ;

    fn mul(&self, rhs: &Self) -> (r: Self)
        requires
            pos_frac(self.frac()),
            pos_frac(rhs.frac()),
        ensures
            pos_frac(r.frac()),
            eqv(r.frac(), rmul(self.frac(), rhs.frac())),
    ;

    /// Division; by zero it gives a degenerate value.
    fn div(&self, rhs: &Self) -> (r: Self)
        requires
            pos_frac(self.frac()),
            pos_frac(rhs.frac()),
        ensures
            rhs.frac().0 > 0 ==> pos_frac(r.frac()),
            rhs.frac().0 == 0 ==> r.frac().1 == 0,
            eqv(r.frac(), rdiv(self.frac(), rhs.frac())),
    ;
}

/// Generic trait for types implementing numeric assignment operators.
pub trait FloatAssignOps: FloatOps {
    fn add_assign(&mut self, rhs: &Self)
        requires
            pos_frac(old(self).frac()),
            pos_frac(rhs.frac()),
        ensures
            pos_frac(final(self).frac()),
            eqv(final(self).frac(), radd(old(self).frac(), rhs.frac())),
    ;

    fn sub_assign(&mut self, rhs: &Self)
        requires
            pos_frac(old(self).frac()),
            pos_frac(rhs.frac()),
            rle(rhs.frac(), old(self).frac()),
        ensures
            pos_frac(final(self).frac()),
            eqv(final(self).frac(), rsub(old(self).frac(), rhs.frac())),
    ;

    fn mul_assign(&mut self, rhs: &Self)
        requires
            pos_frac(old(self).frac()),
            pos_frac(rhs.frac()),
        ensures
            pos_frac(final(self).frac()),
            eqv(final(self).frac(), rmul(old(self).frac(), rhs.frac())),
    ;

    fn div_assign(&mut self, rhs: &Self)
        requires
            pos_frac(old(self).frac()),
            pos_frac(rhs.frac()),
            rhs.frac().0 > 0,
        ensures
            pos_frac(final(self).frac()),
            eqv(final(self).frac(), rdiv(old(self).frac(), rhs.frac())),
    ;
}

/// The multiply and divide assignment operator.
pub trait MulDivAssign: FloatOps {
    /// `self = self * mul / div`, as one step where the representation allows.
    fn mul_div_assign(&mut self, mul: &Self, div: &Self)
        requires
            pos_frac(old(self).frac()),
            pos_frac(mul.frac()),
            pos_frac(div.frac()),
            div.frac().0 > 0,
        ensures
            pos_frac(final(self).frac()),
            eqv(final(self).frac(), rdiv(rmul(old(self).frac(), mul.frac()), div.frac())),
    ;
}

/// Generic trait for a high-precision number.
pub trait Float: FloatOps + FloatAssignOps + MulDivAssign {
    fn zero() -> (r: Self)
        ensures
            pos_frac(r.frac()),
            r.frac().0 == 0,
    ;

    fn one() -> (r: Self)
        ensures
            pos_frac(r.frac()),
            eqv(r.frac(), rint(1)),
    ;

    fn from_i64(v: i64) -> (r: Self)
        requires
            v >= 0,
        ensures
            pos_frac(r.frac()),
            eqv(r.frac(), rint(v as int)),
    ;

    fn is_zero(&self) -> (r: bool)
        requires
            pos_frac(self.frac()),
        ensures
            r == (self.frac().0 == 0),
    ;

    fn is_one(&self) -> (r: bool)
        requires
            pos_frac(self.frac()),
        ensures
            r == eqv(self.frac(), rint(1)),
    ;

    fn set_zero(&mut self)
        ensures
            pos_frac(final(self).frac()),
            final(self).frac().0 == 0,
    ;

    fn set_one(&mut self)
        ensures
            pos_frac(final(self).frac()),
            eqv(final(self).frac(), rint(1)),
    ;

    /// `self` to the power `exp`, by repeated multiplication.
    fn pow(&self, exp: u32) -> (r: Self)
        requires
            pos_frac(self.frac()),
        ensures
            pos_frac(r.frac()),
            eqv(r.frac(), rpow(self.frac(), exp as nat)),
    ;

    /// Whether `self` is degenerate, the result of a `0 / 0` ratio.
    fn is_nan(&self) -> (r: bool)
        ensures
            r == (self.frac().1 == 0),
    ;

    /// The order of the numbers: `self <= rhs`.
    fn le(&self, rhs: &Self) -> (r: bool)
        requires
            pos_frac(self.frac()),
            pos_frac(rhs.frac()),
        ensures
            r == rle(self.frac(), rhs.frac()),
    ;
}

} // verus!
