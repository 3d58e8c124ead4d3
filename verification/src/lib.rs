//! Exact dense-matrix arithmetic over the ring of 64-bit integers.
//!
//! Every entry lives in the integers modulo 2^64, represented by an `i64`,
//! so addition, subtraction and multiplication never fail and obey the ring
//! laws exactly. Multiplication is a recursive Strassen-Winograd scheme that
//! falls back to the direct triple loop on small blocks; both are proved to
//! compute the same product.
//!
//! - [`scalar`]: the ring of scalars and its arithmetic.
//! - [`matrix_view`]: block views, square windows over a store that grows
//!   only where something is written and reads as zero everywhere else.
//! - [`product`]: dot products and the algebra behind the two
//!   multiplication routines.
//! - [`matrix`]: matrices of a declared size, with checked element access.
//! - [`laws`]: what holds of the arithmetic as a whole.
//! - [`remember`]: a cached value that is recomputed on demand.
//! - [`polytope`]: polytopes over shared vertices and their faces.

pub mod scalar;
pub mod product;
pub mod matrix_view;
pub mod matrix;
pub mod remember;
pub mod polytope;
pub mod laws;
