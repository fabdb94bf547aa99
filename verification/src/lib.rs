//! Singular value decomposition of dense complex matrices, after Businger and
//! Golub's Algorithm 358, together with the Moore-Penrose pseudo-inverse that
//! is derived from it.
//!
//! All matrices are flattened row-major vectors of `num_complex::Complex32`.
//! Real quantities (singular values, rotation coefficients, tolerances) are
//! carried as complex values whose imaginary part is zero, so that a single
//! scalar type runs through the whole library.

mod builder;
mod check;
mod engine;
mod error;
mod layout;
mod scalar;

pub use builder::{find_pinv_from_svd, matrix_mult, pinv};
pub use check::{check_matrix_equality, check_pinv, find_orig_matrix_from_svd};
pub use engine::{csvd, csvd_status, dims_ok};
pub use error::SvdError;

use vstd::prelude::*;

verus! {

/// Upper bound on the column count `n` that the working arrays support.
pub const NBIG: usize = 150;

} // verus!
