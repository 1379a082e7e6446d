//! Forward-mode automatic differentiation with dual numbers: a value
//! carried together with its derivative, so that every arithmetic
//! operation propagates the derivative by the chain rule.

use vstd::prelude::*;

verus! {

/// The scalar numbers dual numbers are built over.
///
/// The embedding supplies the scalar type (ordinarily a floating-point
/// type, which this crate itself cannot hold). Each executable operation
/// is specified only relative to the implementation's own spec function
/// for it, so what is proved of [`AutoDiff`] is exactly the chain rule:
/// which scalar operations feed which. Implementations outside this crate
/// are not verified; each is trusted to compute a pure function of its
/// arguments.
pub trait Scalar: Sized + Copy {
    /// The sum, as this implementation defines it.
    spec fn add_s(self, rhs: Self) -> Self;

    /// The difference, as this implementation defines it.
    spec fn sub_s(self, rhs: Self) -> Self;

    /// The product, as this implementation defines it.
    spec fn mul_s(self, rhs: Self) -> Self;

    /// The quotient, as this implementation defines it.
    spec fn div_s(self, rhs: Self) -> Self;

    /// The negation, as this implementation defines it.
    spec fn neg_s(self) -> Self;

    /// The sine, as this implementation defines it.
    spec fn sin_s(self) -> Self;

    /// The cosine, as this implementation defines it.
    spec fn cos_s(self) -> Self;

    /// The exponential, as this implementation defines it.
    spec fn exp_s(self) -> Self;

    /// The natural logarithm, as this implementation defines it.
    spec fn ln_s(self) -> Self;

    /// The logarithm in a given base, as this implementation defines it.
    spec fn log_s(self, base: Self) -> Self;

    /// The power, as this implementation defines it.
    spec fn powf_s(self, n: Self) -> Self;

    /// The absolute value, as this implementation defines it.
    spec fn abs_s(self) -> Self;

    /// The sign, as this implementation defines it.
    spec fn signum_s(self) -> Self;

    /// The multiplicative unit, as this implementation defines it.
    spec fn one_s() -> Self;

    fn add(self, rhs: Self) -> (r: Self)
        ensures
            r == self.add_s(rhs),
    ;

    fn sub(self, rhs: Self) -> (r: Self)
        ensures
            r == self.sub_s(rhs),
    ;

    fn mul(self, rhs: Self) -> (r: Self)
        ensures
            r == self.mul_s(rhs),
    ;

    fn div(self, rhs: Self) -> (r: Self)
        ensures
            r == self.div_s(rhs),
    ;

    fn neg(self) -> (r: Self)
        ensures
            r == self.neg_s(),
    ;

    fn sin(self) -> (r: Self)
        ensures
            r == self.sin_s(),
    ;

    fn cos(self) -> (r: Self)
        ensures
            r == self.cos_s(),
    ;

    fn exp(self) -> (r: Self)
        ensures
            r == self.exp_s(),
    ;

    fn ln(self) -> (r: Self)
        ensures
            r == self.ln_s(),
    ;

    fn log(self, base: Self) -> (r: Self)
        ensures
            r == self.log_s(base),
    ;

    fn powf(self, n: Self) -> (r: Self)
        ensures
            r == self.powf_s(n),
    ;

    fn abs(self) -> (r: Self)
        ensures
            r == self.abs_s(),
    ;

    fn signum(self) -> (r: Self)
        ensures
            r == self.signum_s(),
    ;

    fn one() -> (r: Self)
        ensures
            r == Self::one_s(),
    ;
}

/// A dual number: a value and the derivative carried along with it.
#[derive(Clone, Copy)]
pub struct AutoDiff<F> {
    val: F,
    diff: F,
}

impl<F: Copy> AutoDiff<F> {
    /// The carried value.
    pub closed spec fn spec_val(self) -> F {
        self.val
    }

    /// The carried derivative.
    pub closed spec fn spec_diff(self) -> F {
        self.diff
    }

    /// A dual number from a value and its derivative.
    pub fn new(val: F, diff: F) -> (r: AutoDiff<F>)
        ensures
            r.spec_val() == val,
            r.spec_diff() == diff,
    {
        AutoDiff { val, diff }
    }

    /// The carried value.
    pub fn val(&self) -> (r: F)
        ensures
            r == self.spec_val(),
    {
        self.val
    }

    /// The carried derivative.
    pub fn diff(&self) -> (r: F)
        ensures
            r == self.spec_diff(),
    {
        self.diff
    }
}

impl<F: Scalar> AutoDiff<F> {
    /// Dual addition: values and derivatives add.
    pub fn add(self, rhs: Self) -> (r: Self)
        ensures
            r.spec_val() == self.spec_val().add_s(rhs.spec_val()),
            r.spec_diff() == self.spec_diff().add_s(rhs.spec_diff()),
    {
        AutoDiff { val: self.val.add(rhs.val), diff: self.diff.add(rhs.diff) }
    }

    /// Dual subtraction: values and derivatives subtract.
    pub fn sub(self, rhs: Self) -> (r: Self)
        ensures
            r.spec_val() == self.spec_val().sub_s(rhs.spec_val()),
            r.spec_diff() == self.spec_diff().sub_s(rhs.spec_diff()),
    {
        AutoDiff { val: self.val.sub(rhs.val), diff: self.diff.sub(rhs.diff) }
    }

    /// Dual multiplication, by the product rule.
    pub fn mul(self, rhs: Self) -> (r: Self)
        ensures
            r.spec_val() == self.spec_val().mul_s(rhs.spec_val()),
            r.spec_diff() == self.spec_diff().mul_s(rhs.spec_val()).add_s(
                self.spec_val().mul_s(rhs.spec_diff()),
            ),
    {
        AutoDiff {
            val: self.val.mul(rhs.val),
            diff: self.diff.mul(rhs.val).add(self.val.mul(rhs.diff)),
        }
    }

    /// Dual division, by the quotient rule.
    pub fn div(self, rhs: Self) -> (r: Self)
        ensures
            r.spec_val() == self.spec_val().div_s(rhs.spec_val()),
            r.spec_diff() == self.spec_diff().mul_s(rhs.spec_val()).sub_s(
                self.spec_val().mul_s(rhs.spec_diff()),
            ).div_s(rhs.spec_val().mul_s(rhs.spec_val())),
    {
        AutoDiff {
            val: self.val.div(rhs.val),
            diff: self.diff.mul(rhs.val).sub(self.val.mul(rhs.diff)).div(rhs.val.mul(rhs.val)),
        }
    }

    /// Sine of a dual number: the derivative picks up the cosine.
    pub fn sin(self) -> (r: Self)
        ensures
            r.spec_val() == self.spec_val().sin_s(),
            r.spec_diff() == self.spec_diff().mul_s(self.spec_val().cos_s()),
    {
        AutoDiff { val: self.val.sin(), diff: self.diff.mul(self.val.cos()) }
    }

    /// Cosine of a dual number: the derivative picks up minus the sine.
    pub fn cos(self) -> (r: Self)
        ensures
            r.spec_val() == self.spec_val().cos_s(),
            r.spec_diff() == self.spec_diff().mul_s(self.spec_val().sin_s().neg_s()),
    {
        AutoDiff { val: self.val.cos(), diff: self.diff.mul(self.val.sin().neg()) }
    }

    /// Exponential of a dual number: the derivative is scaled by the
    /// exponential of the value.
    pub fn exp(self) -> (r: Self)
        ensures
            r.spec_val() == self.spec_val().exp_s(),
            r.spec_diff() == self.spec_diff().mul_s(self.spec_val().exp_s()),
    {
        let v = self.val.exp();
        AutoDiff { val: v, diff: self.diff.mul(v) }
    }

    /// Power of a dual number: the derivative is scaled by
    /// `n * val^(n-1)`.
    pub fn pow(self, n: F) -> (r: Self)
        ensures
            r.spec_val() == self.spec_val().powf_s(n),
            r.spec_diff() == self.spec_diff().mul_s(
                n.mul_s(self.spec_val().powf_s(n.sub_s(F::one_s()))),
            ),
    {
        let scale = n.mul(self.val.powf(n.sub(F::one())));
        AutoDiff { val: self.val.powf(n), diff: self.diff.mul(scale) }
    }

    /// Absolute value of a dual number: the derivative is scaled by the
    /// sign of the value.
    pub fn abs(self) -> (r: Self)
        ensures
            r.spec_val() == self.spec_val().abs_s(),
            r.spec_diff() == self.spec_diff().mul_s(self.spec_val().signum_s()),
    {
        AutoDiff { val: self.val.abs(), diff: self.diff.mul(self.val.signum()) }
    }

    /// Natural logarithm of a dual number: the derivative is divided by
    /// the value.
    pub fn ln(self) -> (r: Self)
        ensures
            r.spec_val() == self.spec_val().ln_s(),
            r.spec_diff() == self.spec_diff().div_s(self.spec_val()),
    {
        AutoDiff { val: self.val.ln(), diff: self.diff.div(self.val) }
    }

    /// Logarithm of a dual number in a fixed base: the derivative is
    /// divided by the value times the natural logarithm of the base.
    pub fn log(self, base: F) -> (r: Self)
        ensures
            r.spec_val() == self.spec_val().log_s(base),
            r.spec_diff() == self.spec_diff().div_s(self.spec_val().mul_s(base.ln_s())),
    {
        AutoDiff {
            val: self.val.log(base),
            diff: self.diff.div(self.val.mul(base.ln())),
        }
    }
}

} // verus!
