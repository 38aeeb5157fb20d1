use vstd::prelude::*;

verus! {

/// The number type of the populations and macroscopic fields.
///
/// Each operation has a spec counterpart that names its result, so contracts
/// can say which operations, on which operands and in which order, produce a
/// value. Nothing is assumed of the operations themselves (no field laws):
/// an implementation only has to compute a function of its operands.
pub trait Scalar: Copy + Sized {
    closed spec fn spec_zero() -> Self {
        arbitrary()
    }

    closed spec fn spec_from_ratio(numerator: u32, denominator: u32) -> Self {
        arbitrary()
    }

    closed spec fn spec_from_integer(value: isize) -> Self {
        arbitrary()
    }

    closed spec fn spec_plus(self, rhs: Self) -> Self {
        arbitrary()
    }

    closed spec fn spec_minus(self, rhs: Self) -> Self {
        arbitrary()
    }

    closed spec fn spec_times(self, rhs: Self) -> Self {
        arbitrary()
    }

    closed spec fn spec_over(self, rhs: Self) -> Self {
        arbitrary()
    }

    closed spec fn spec_square_root(self) -> Self {
        arbitrary()
    }

    closed spec fn spec_is_positive(self) -> bool {
        arbitrary()
    }

    /// The additive identity.
    fn zero() -> (r: Self)
        ensures
            r == Self::spec_zero(),
    ;

    /// The value `numerator / denominator`.
    fn from_ratio(numerator: u32, denominator: u32) -> (r: Self)
        requires
            denominator > 0,
        ensures
            r == Self::spec_from_ratio(numerator, denominator),
    ;

    /// The value of a small integer.
    fn from_integer(value: isize) -> (r: Self)
        ensures
            r == Self::spec_from_integer(value),
    ;

    fn plus(self, rhs: Self) -> (r: Self)
        ensures
            r == self.spec_plus(rhs),
    ;

    fn minus(self, rhs: Self) -> (r: Self)
        ensures
            r == self.spec_minus(rhs),
    ;

    fn times(self, rhs: Self) -> (r: Self)
        ensures
            r == self.spec_times(rhs),
    ;

    fn over(self, rhs: Self) -> (r: Self)
        ensures
            r == self.spec_over(rhs),
    ;

    fn square_root(self) -> (r: Self)
        ensures
            r == self.spec_square_root(),
    ;

    /// Whether the value is greater than zero.
    fn is_positive(self) -> (r: bool)
        ensures
            r == self.spec_is_positive(),
    ;
}

} // verus!
