//! The sum-check protocol and the polynomials it runs over.
pub mod polys;
pub mod sumcheck;
pub mod transcript;
