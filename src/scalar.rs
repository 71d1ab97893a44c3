//! The element type that the decompositions compute with.
use vstd::prelude::*;

verus! {

/// A real scalar: the arithmetic and comparisons that the decompositions use.
///
/// Each operation is named by a spec function, and each executable method
/// returns exactly what its spec function names. No algebraic law is assumed
/// of them (floating-point arithmetic breaks most), so contracts built on them
/// say which operations are applied to which values, and in what order.
pub trait Scalar: Copy {
    closed spec fn spec_zero() -> Self {
        arbitrary()
    }

    closed spec fn spec_one() -> Self {
        arbitrary()
    }

    closed spec fn spec_from_u64(n: u64) -> Self {
        arbitrary()
    }

    closed spec fn spec_min_positive() -> Self {
        arbitrary()
    }

    closed spec fn spec_plus(self, o: Self) -> Self {
        arbitrary()
    }

    closed spec fn spec_minus(self, o: Self) -> Self {
        arbitrary()
    }

    closed spec fn spec_times(self, o: Self) -> Self {
        arbitrary()
    }

    closed spec fn spec_divide(self, o: Self) -> Self {
        arbitrary()
    }

    closed spec fn spec_negate(self) -> Self {
        arbitrary()
    }

    closed spec fn spec_sqrt(self) -> Self {
        arbitrary()
    }

    closed spec fn spec_hypot(self, o: Self) -> Self {
        arbitrary()
    }

    closed spec fn spec_abs(self) -> Self {
        arbitrary()
    }

    closed spec fn spec_signum(self) -> Self {
        arbitrary()
    }

    closed spec fn spec_less_than(self, o: Self) -> bool {
        arbitrary()
    }

    closed spec fn spec_equals(self, o: Self) -> bool {
        arbitrary()
    }

    closed spec fn spec_is_nan(self) -> bool {
        arbitrary()
    }

    fn zero() -> (r: Self)
        ensures
            r == Self::spec_zero(),
    ;

    fn one() -> (r: Self)
        ensures
            r == Self::spec_one(),
    ;

    /// The scalar with the value of a non-negative integer.
    fn from_u64(n: u64) -> (r: Self)
        ensures
            r == Self::spec_from_u64(n),
    ;

    /// The smallest positive normal value of the type.
    fn min_positive() -> (r: Self)
        ensures
            r == Self::spec_min_positive(),
    ;

    fn plus(self, o: Self) -> (r: Self)
        ensures
            r == self.spec_plus(o),
    ;

    fn minus(self, o: Self) -> (r: Self)
        ensures
            r == self.spec_minus(o),
    ;

    fn times(self, o: Self) -> (r: Self)
        ensures
            r == self.spec_times(o),
    ;

    fn divide(self, o: Self) -> (r: Self)
        ensures
            r == self.spec_divide(o),
    ;

    fn negate(self) -> (r: Self)
        ensures
            r == self.spec_negate(),
    ;

    fn sqrt(self) -> (r: Self)
        ensures
            r == self.spec_sqrt(),
    ;

    /// `sqrt(self^2 + o^2)` without intermediate overflow.
    fn hypot(self, o: Self) -> (r: Self)
        ensures
            r == self.spec_hypot(o),
    ;

    fn abs(self) -> (r: Self)
        ensures
            r == self.spec_abs(),
    ;

    /// `1` for positive values and positive zero, `-1` for negative ones.
    fn signum(self) -> (r: Self)
        ensures
            r == self.spec_signum(),
    ;

    fn less_than(self, o: Self) -> (r: bool)
        ensures
            r == self.spec_less_than(o),
    ;

    fn equals(self, o: Self) -> (r: bool)
        ensures
            r == self.spec_equals(o),
    ;

    fn is_nan(self) -> (r: bool)
        ensures
            r == self.spec_is_nan(),
    ;
}

} // verus!
