//! Dense matrix decompositions: Cholesky, QR, Hessenberg reduction with
//! balancing, shifted-QR eigenvalues, a Francis double-shift sweep and LUP.
use vstd::prelude::*;

pub mod decomposition;
pub mod eigen;
pub mod error;
pub mod matrix;
pub mod ops;
pub mod scalar;

verus! {

} // verus!
