//! The ways a decomposition can fail.
use vstd::prelude::*;

verus! {

#[derive(Debug, Clone, Copy, PartialEq, Eq, Structural)]
pub enum DecompError {
    /// The operation needs a square matrix, or a single column, and got another shape.
    Shape,
    /// A Cholesky factor would need the square root of a negative number.
    NotPositiveDefinite,
    /// A Householder reflector has a zero denominator: the column is zero.
    NonDecomposable,
    /// A pivot of the LUP factorization is exactly zero.
    SingularMatrix,
}

} // verus!
