//! Dense row-major matrices and two products over them: a serial triple loop
//! and a blocked product that hands disjoint row chunks of the output to a
//! worker pool. Element arithmetic is whatever `+` and `*` mean for the
//! element type; the contracts fix the order in which it is applied.

pub mod matrix;
pub mod product;
pub mod blocked;
pub mod laws;
pub mod random;

pub use crate::matrix::{Matrix, MatrixError};
pub use crate::product::gemm_naive;
pub use crate::blocked::gemm_parallel;
