//! A small dense linear-algebra library: elementwise vector arithmetic,
//! matrix-vector multiplication, and a Gaussian-elimination solver with
//! partial pivoting over exact rational scalars.

pub mod ops;
pub mod rat;
pub mod sle;
