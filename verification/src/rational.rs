//! Exact rational numbers, backed by `malachite::Rational`.
//!
//! Verus sees a `malachite::Rational` only through the uninterpreted view
//! `frac_of`, which gives the fraction the value denotes; each trusted
//! wrapper below states, over that view, what the corresponding `malachite`
//! operation computes. A `malachite` rational is stored in lowest terms
//! with a positive denominator, so the view of every value the wrappers
//! return is well-formed. `Rat` packages the wrapped value with a verified
//! interface; all of its methods are checked against the wrappers'
//! contracts.

use vstd::prelude::*;

use crate::frac::{f_int, fadd, fdiv, feq, flt, fmul, fneg, fsub, fzero, Frac};

verus! {

#[verifier::external_type_specification]
#[verifier::external_body]
pub struct ExRational(malachite::Rational);

/// The fraction that a `malachite::Rational` holds: its numerator over its
/// (positive) denominator.
pub uninterp spec fn frac_of(r: malachite::Rational) -> Frac;

/// Relies on `malachite::Rational::from_signeds`: returns `num / den` in
/// lowest terms with a positive denominator; panics only if `den` is zero.
#[verifier::external_body]
fn raw_from_signeds(num: i64, den: i64) -> (r: malachite::Rational)
    requires
        den != 0,
    ensures
        frac_of(r).wf(),
        feq(frac_of(r), Frac { num: num as int, den: den as int }),
{
    malachite::Rational::from_signeds(num, den)
}

/// Relies on `<malachite::Rational as From<u64>>::from`: returns `v / 1`.
#[verifier::external_body]
fn raw_from_u64(v: u64) -> (r: malachite::Rational)
    ensures
        frac_of(r).wf(),
        feq(frac_of(r), f_int(v as int)),
{
    malachite::Rational::from(v)
}

/// Relies on `Add for &malachite::Rational`: returns the exact sum.
#[verifier::external_body]
fn raw_add(a: &malachite::Rational, b: &malachite::Rational) -> (r: malachite::Rational)
    ensures
        frac_of(r).wf(),
        feq(frac_of(r), fadd(frac_of(*a), frac_of(*b))),
{
    a + b
}

/// Relies on `Sub for &malachite::Rational`: returns the exact difference.
#[verifier::external_body]
fn raw_sub(a: &malachite::Rational, b: &malachite::Rational) -> (r: malachite::Rational)
    ensures
        frac_of(r).wf(),
        feq(frac_of(r), fsub(frac_of(*a), frac_of(*b))),
{
    a - b
}

/// Relies on `Mul for &malachite::Rational`: returns the exact product.
#[verifier::external_body]
fn raw_mul(a: &malachite::Rational, b: &malachite::Rational) -> (r: malachite::Rational)
    ensures
        frac_of(r).wf(),
        feq(frac_of(r), fmul(frac_of(*a), frac_of(*b))),
{
    a * b
}

/// Relies on `Div for &malachite::Rational`: returns the exact quotient;
/// panics only on a zero divisor.
#[verifier::external_body]
fn raw_div(a: &malachite::Rational, b: &malachite::Rational) -> (r: malachite::Rational)
    requires
        !frac_of(*b).is_zero(),
    ensures
        frac_of(r).wf(),
        feq(frac_of(r), fdiv(frac_of(*a), frac_of(*b))),
{
    a / b
}

/// Relies on `Neg for &malachite::Rational`: returns the exact negation.
#[verifier::external_body]
fn raw_neg(a: &malachite::Rational) -> (r: malachite::Rational)
    ensures
        frac_of(r).wf(),
        feq(frac_of(r), fneg(frac_of(*a))),
{
    -a
}

/// Relies on `PartialEq for malachite::Rational`: equality of the rational
/// values, which is cross-multiplied equality of the fractions.
#[verifier::external_body]
fn raw_eq(a: &malachite::Rational, b: &malachite::Rational) -> (r: bool)
    ensures
        r == feq(frac_of(*a), frac_of(*b)),
{
    a == b
}

/// Relies on `Ord for malachite::Rational`: the order of the rational
/// values, which for positive denominators is the cross-multiplied order.
#[verifier::external_body]
fn raw_lt(a: &malachite::Rational, b: &malachite::Rational) -> (r: bool)
    requires
        frac_of(*a).wf(),
        frac_of(*b).wf(),
    ensures
        r == flt(frac_of(*a), frac_of(*b)),
{
    a < b
}

/// Relies on `Clone for malachite::Rational`: the clone holds the same value.
#[verifier::external_body]
fn raw_clone(a: &malachite::Rational) -> (r: malachite::Rational)
    ensures
        frac_of(r) == frac_of(*a),
{
    a.clone()
}

/// An exact rational number.
#[derive(Debug)]
pub struct Rat {
    r: malachite::Rational,
}

impl View for Rat {
    type V = Frac;

    closed spec fn view(&self) -> Frac {
        frac_of(self.r)
    }
}

impl Rat {
    /// The rational `num / den`; `den` must not be zero.
    pub fn new(num: i64, den: i64) -> (r: Rat)
        requires
            den != 0,
        ensures
            r@.wf(),
            feq(r@, Frac { num: num as int, den: den as int }),
    {
        Rat { r: raw_from_signeds(num, den) }
    }

    /// The rational `v / 1`.
    pub fn from_u64(v: u64) -> (r: Rat)
        ensures
            r@.wf(),
            feq(r@, f_int(v as int)),
    {
        Rat { r: raw_from_u64(v) }
    }

    /// Zero.
    pub fn zero() -> (r: Rat)
        ensures
            r@.wf(),
            feq(r@, fzero()),
    {
        Rat::from_u64(0)
    }

    /// One.
    pub fn one() -> (r: Rat)
        ensures
            r@.wf(),
            feq(r@, f_int(1)),
    {
        Rat::from_u64(1)
    }

    /// The exact sum of `self` and `other`.
    pub fn add(&self, other: &Rat) -> (r: Rat)
        ensures
            r@.wf(),
            feq(r@, fadd(self@, other@)),
    {
        Rat { r: raw_add(&self.r, &other.r) }
    }

    /// The exact difference of `self` and `other`.
    pub fn sub(&self, other: &Rat) -> (r: Rat)
        ensures
            r@.wf(),
            feq(r@, fsub(self@, other@)),
    {
        Rat { r: raw_sub(&self.r, &other.r) }
    }

    /// The exact product of `self` and `other`.
    pub fn mul(&self, other: &Rat) -> (r: Rat)
        ensures
            r@.wf(),
            feq(r@, fmul(self@, other@)),
    {
        Rat { r: raw_mul(&self.r, &other.r) }
    }

    /// The exact quotient of `self` by `other`; `other` must not be zero.
    pub fn div(&self, other: &Rat) -> (r: Rat)
        requires
            !other@.is_zero(),
        ensures
            r@.wf(),
            feq(r@, fdiv(self@, other@)),
    {
        Rat { r: raw_div(&self.r, &other.r) }
    }

    /// The exact negation of `self`.
    pub fn neg(&self) -> (r: Rat)
        ensures
            r@.wf(),
            feq(r@, fneg(self@)),
    {
        Rat { r: raw_neg(&self.r) }
    }

    /// Whether `self` and `other` denote the same rational number.
    pub fn eq_rat(&self, other: &Rat) -> (r: bool)
        ensures
            r == feq(self@, other@),
    {
        raw_eq(&self.r, &other.r)
    }

    /// Whether `self` denotes a strictly smaller rational than `other`.
    pub fn lt(&self, other: &Rat) -> (r: bool)
        requires
            self@.wf(),
            other@.wf(),
        ensures
            r == flt(self@, other@),
    {
        raw_lt(&self.r, &other.r)
    }

    /// Whether `self` is zero.
    pub fn is_zero_rat(&self) -> (r: bool)
        ensures
            r == self@.is_zero(),
    {
        let z = Rat::zero();
        let r = raw_eq(&self.r, &z.r);
        proof {
            assert(z@.num == 0);
            if r {
                assert(self@.num == 0) by (nonlinear_arith)
                    requires
                        self@.num * z@.den == z@.num * self@.den,
                        z@.num == 0,
                        z@.den > 0,
                ;
            } else {
                if self@.num == 0 {
                    assert(feq(self@, z@)) by (nonlinear_arith)
                        requires
                            self@.num == 0,
                            z@.num == 0,
                    ;
                }
            }
        }
        r
    }

    /// A copy of `self` with the same value.
    pub fn clone_rat(&self) -> (r: Rat)
        ensures
            r@ == self@,
    {
        Rat { r: raw_clone(&self.r) }
    }

    /// The wrapped arbitrary-precision rational.
    pub fn as_rational(&self) -> (r: &malachite::Rational)
        ensures
            frac_of(*r) == self@,
    {
        &self.r
    }
}

} // verus!
