//! Exact rational numbers of unbounded size.
//!
//! The arithmetic itself is done by `num_rational::BigRational`. Every value
//! of [`Rational`] is modelled by the real number it denotes, and each
//! operation below is specified over that model.

use vstd::prelude::*;
use num_bigint::BigInt;
use num_rational::BigRational;
use num_traits::{Signed, ToPrimitive, Zero};
use crate::days::day10::real_rows::{rdiv, rmul};

verus! {

#[verifier::external_type_specification]
#[verifier::external_body]
pub struct ExBigInt(num_bigint::BigInt);

#[verifier::external_type_specification]
#[verifier::external_body]
#[verifier::reject_recursive_types(T)]
pub struct ExRatio<T>(num_rational::Ratio<T>);

/// The integer that a `BigInt` denotes.
pub uninterp spec fn bigint_value(b: BigInt) -> int;

/// The number that a `BigRational` denotes: its numerator over its denominator.
pub uninterp spec fn ratio_value(r: BigRational) -> real;

/// Whether a `BigRational` is stored in lowest terms with a positive denominator.
pub uninterp spec fn ratio_reduced(r: BigRational) -> bool;

/// Whether a real number is a whole number.
#[verifier::opaque]
pub open spec fn is_whole(x: real) -> bool {
    x == (x.floor() as real)
}

/// The real number equal to an integer is whole.
pub proof fn lemma_whole_int(k: int, x: real)
    requires
        x == k as real,
    ensures
        is_whole(x),
{
    assert(x.floor() == k);
    assert(x == (x.floor() as real));
    reveal(is_whole);
}

/// Every `u64` is a whole number.
pub proof fn lemma_whole_u64(n: u64)
    ensures
        is_whole(n as real),
        0real <= n as real <= u64::MAX as real,
{
    lemma_whole_int(n as int, n as real);
}

/// The whole number nearest to `x` that is no further from zero than `x`.
pub open spec fn truncate(x: real) -> int {
    if x >= 0real {
        x.floor()
    } else {
        -((-x).floor())
    }
}

/// An exact rational number.
pub struct Rational {
    inner: BigRational,
}

impl Clone for Rational {
    fn clone(&self) -> (r: Self)
        ensures
            self.wf() ==> r.wf(),
            r@ == self@,
    {
        Rational { inner: ratio_clone(&self.inner) }
    }
}

impl Rational {
    /// The number this value denotes.
    pub closed spec fn view(&self) -> real {
        ratio_value(self.inner)
    }

    /// The stored fraction is in lowest terms.
    pub closed spec fn wf(&self) -> bool {
        ratio_reduced(self.inner)
    }

    /// Whether this is zero.
    pub fn is_zero(&self) -> (b: bool)
        requires
            self.wf(),
        ensures
            b == (self@ == 0real),
    {
        ratio_is_zero(&self.inner)
    }

    /// Whether this is a whole number.
    pub fn is_integer(&self) -> (b: bool)
        requires
            self.wf(),
        ensures
            b == is_whole(self@),
    {
        ratio_is_integer(&self.inner)
    }

    /// The quotient `self / rhs`.
    pub fn div(&self, rhs: &Rational) -> (r: Rational)
        requires
            self.wf(),
            rhs.wf(),
            rhs@ != 0real,
        ensures
            r.wf(),
            r@ == rdiv(self@, rhs@),
    {
        reveal(rdiv);
        Rational { inner: ratio_div(&self.inner, &rhs.inner) }
    }

    /// The product `self * rhs`.
    pub fn mul(&self, rhs: &Rational) -> (r: Rational)
        requires
            self.wf(),
            rhs.wf(),
        ensures
            r.wf(),
            r@ == rmul(self@, rhs@),
    {
        reveal(rmul);
        Rational { inner: ratio_mul(&self.inner, &rhs.inner) }
    }

    /// The difference `self - rhs`.
    pub fn sub(&self, rhs: &Rational) -> (r: Rational)
        requires
            self.wf(),
            rhs.wf(),
        ensures
            r.wf(),
            r@ == self@ - rhs@,
    {
        Rational { inner: ratio_sub(&self.inner, &rhs.inner) }
    }

    /// This number as a `u64`, where it is a whole number in that range.
    pub fn to_u64(&self) -> (v: Option<u64>)
        requires
            self.wf(),
        ensures
            match v {
                Some(n) => self@ == n as real,
                None => !is_whole(self@) || self@ < 0real || self@ > u64::MAX as real,
            },
    {
        if !self.is_integer() {
            return None;
        }
        proof {
            reveal(is_whole);
        }
        let integer = ratio_to_integer(&self.inner);
        if bigint_is_negative(&integer) {
            return None;
        }
        bigint_to_u64(&integer)
    }
}

/// The rational equal to the integer `value`.
pub fn rational_from_u64(value: u64) -> (r: Rational)
    ensures
        r.wf(),
        r@ == value as real,
{
    let b = bigint_from_u64(value);
    Rational { inner: ratio_from_integer(b) }
}

/// `BigInt::from(u64)`: the big integer with the same value.
#[verifier::external_body]
fn bigint_from_u64(value: u64) -> (b: BigInt)
    ensures
        bigint_value(b) == value,
{
    BigInt::from(value)
}

/// `Signed::is_negative` of `BigInt`: whether the integer is below zero.
#[verifier::external_body]
fn bigint_is_negative(b: &BigInt) -> (neg: bool)
    ensures
        neg == (bigint_value(*b) < 0),
{
    b.is_negative()
}

/// `ToPrimitive::to_u64` of `BigInt`: the value, where it lies in the range
/// of `u64`, and `None` elsewhere.
#[verifier::external_body]
fn bigint_to_u64(b: &BigInt) -> (v: Option<u64>)
    ensures
        match v {
            Some(n) => bigint_value(*b) == n,
            None => bigint_value(*b) < 0 || bigint_value(*b) > u64::MAX,
        },
{
    b.to_u64()
}

/// `Ratio::from_integer`: the fraction `t / 1`, which is in lowest terms.
#[verifier::external_body]
fn ratio_from_integer(t: BigInt) -> (r: BigRational)
    ensures
        ratio_value(r) == bigint_value(t) as real,
        ratio_reduced(r),
{
    BigRational::from_integer(t)
}

/// `Clone::clone` of `Ratio`: a copy with the same numerator and denominator.
#[verifier::external_body]
fn ratio_clone(a: &BigRational) -> (r: BigRational)
    ensures
        ratio_value(r) == ratio_value(*a),
        ratio_reduced(r) == ratio_reduced(*a),
{
    a.clone()
}

/// `Zero::is_zero` of `Ratio`: whether the numerator is zero, which for a
/// fraction with a non-zero denominator says that its value is zero.
#[verifier::external_body]
fn ratio_is_zero(a: &BigRational) -> (b: bool)
    requires
        ratio_reduced(*a),
    ensures
        b == (ratio_value(*a) == 0real),
{
    a.is_zero()
}

/// `Ratio::is_integer`: whether the denominator is one, which for a fraction
/// in lowest terms says that its value is a whole number.
#[verifier::external_body]
fn ratio_is_integer(a: &BigRational) -> (b: bool)
    requires
        ratio_reduced(*a),
    ensures
        b == is_whole(ratio_value(*a)),
{
    a.is_integer()
}

/// `Ratio::to_integer`: the value rounded towards zero.
#[verifier::external_body]
fn ratio_to_integer(a: &BigRational) -> (t: BigInt)
    requires
        ratio_reduced(*a),
    ensures
        bigint_value(t) == truncate(ratio_value(*a)),
{
    a.to_integer()
}

/// `Div::div` of `&Ratio`: the quotient, reduced to lowest terms. The
/// divisor is not zero.
#[verifier::external_body]
fn ratio_div(a: &BigRational, b: &BigRational) -> (r: BigRational)
    requires
        ratio_reduced(*a),
        ratio_reduced(*b),
        ratio_value(*b) != 0real,
    ensures
        ratio_value(r) == ratio_value(*a) / ratio_value(*b),
        ratio_reduced(r),
{
    a / b
}

/// `Mul::mul` of `&Ratio`: the product, reduced to lowest terms.
#[verifier::external_body]
fn ratio_mul(a: &BigRational, b: &BigRational) -> (r: BigRational)
    requires
        ratio_reduced(*a),
        ratio_reduced(*b),
    ensures
        ratio_value(r) == ratio_value(*a) * ratio_value(*b),
        ratio_reduced(r),
{
    a * b
}

/// `Sub::sub` of `&Ratio`: the difference, reduced to lowest terms.
#[verifier::external_body]
fn ratio_sub(a: &BigRational, b: &BigRational) -> (r: BigRational)
    requires
        ratio_reduced(*a),
        ratio_reduced(*b),
    ensures
        ratio_value(r) == ratio_value(*a) - ratio_value(*b),
        ratio_reduced(r),
{
    a - b
}

} // verus!
