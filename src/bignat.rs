//! Arbitrary-size natural numbers, held as little-endian 64-bit words.
//!
//! The arithmetic itself is done by `dashu_int::UBig`; each operation below
//! converts to and from its word representation, whose words are `u64` on the
//! 64-bit targets this library is built for.
use dashu_int::UBig;
use vstd::prelude::*;

verus! {

pub open spec fn words_value(s: Seq<u64>) -> nat
    decreases s.len(),
{
    if s.len() == 0 {
        0
    } else {
        s[0] as nat + 18446744073709551616nat * words_value(s.skip(1))
    }
}

/// A natural number; `words[i]` is its digit of weight `2^(64 i)`.
pub struct Nat {
    pub words: Vec<u64>,
}

impl View for Nat {
    type V = nat;

    open spec fn view(&self) -> nat {
        words_value(self.words@)
    }
}

impl Nat {
    pub fn from_u64(v: u64) -> (r: Nat)
        ensures
            r@ == v,
    {
        if v == 0 {
            let r = Nat { words: Vec::new() };
            assert(words_value(r.words@) == 0);
            r
        } else {
            let r = Nat { words: vec![v] };
            assert(r.words@.skip(1).len() == 0);
            assert(words_value(r.words@.skip(1)) == 0);
            assert(r.words@[0] == v);
            r
        }
    }
}

/// Relies on `UBig + UBig` of dashu_int: the exact sum.
#[verifier::external_body]
pub(crate) fn nat_add(a: &Nat, b: &Nat) -> (r: Nat)
    ensures
        r@ == a@ + b@,
{
    let s = UBig::from_words(&a.words) + UBig::from_words(&b.words);
    Nat { words: s.as_words().to_vec() }
}

/// Relies on `UBig - UBig` of dashu_int: the exact difference, which panics
/// when it would be negative.
#[verifier::external_body]
pub(crate) fn nat_sub(a: &Nat, b: &Nat) -> (r: Nat)
    requires
        b@ <= a@,
    ensures
        r@ == a@ - b@,
{
    let s = UBig::from_words(&a.words) - UBig::from_words(&b.words);
    Nat { words: s.as_words().to_vec() }
}

/// Relies on `UBig * UBig` of dashu_int: the exact product.
#[verifier::external_body]
pub(crate) fn nat_mul(a: &Nat, b: &Nat) -> (r: Nat)
    ensures
        r@ == a@ * b@,
{
    let s = UBig::from_words(&a.words) * UBig::from_words(&b.words);
    Nat { words: s.as_words().to_vec() }
}

/// Relies on `UBig / UBig` of dashu_int: the quotient rounded down, which
/// panics on a zero divisor.
#[verifier::external_body]
pub(crate) fn nat_div(a: &Nat, b: &Nat) -> (r: Nat)
    requires
        b@ > 0,
    ensures
        r@ == a@ / b@,
{
    let s = UBig::from_words(&a.words) / UBig::from_words(&b.words);
    Nat { words: s.as_words().to_vec() }
}

/// Relies on `Gcd::gcd` of dashu_int for `UBig`: the greatest common divisor,
/// which divides both arguments and is positive when one of them is.
#[verifier::external_body]
pub(crate) fn nat_gcd(a: &Nat, b: &Nat) -> (r: Nat)
    requires
        b@ > 0,
    ensures
        r@ > 0,
        a@ % r@ == 0,
        b@ % r@ == 0,
{
    let s = dashu_int::ops::Gcd::gcd(&UBig::from_words(&a.words), &UBig::from_words(&b.words));
    Nat { words: s.as_words().to_vec() }
}

/// Relies on `UBig <= UBig` of dashu_int: the numeric order.
#[verifier::external_body]
pub(crate) fn nat_le(a: &Nat, b: &Nat) -> (r: bool)
    ensures
        r == (a@ <= b@),
{
    UBig::from_words(&a.words) <= UBig::from_words(&b.words)
}

/// Relies on `UBig::is_zero` of dashu_int: whether the value is zero.
#[verifier::external_body]
pub(crate) fn nat_is_zero(a: &Nat) -> (r: bool)
    ensures
        r == (a@ == 0),
{
    UBig::from_words(&a.words).is_zero()
}

} // verus!
