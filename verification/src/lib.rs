//! A B-spline / NURBS kernel over IEEE-754 binary64 scalars carried as bit
//! patterns.
//!
//! The crate models knot vectors, control nets and rational projective
//! coordinates, and verifies the algorithmic operations on them: de Boor
//! basis evaluation, differentiation, Boehm knot insertion and removal,
//! normalization, degree and knot synchronization, lofting and boundary
//! fill, and sampled near-equality of surfaces.

pub mod scalar;
pub mod tolerance;
pub mod errors;
pub mod vector;
pub mod knot_vec;
pub mod bspcurve;
pub mod bspsurface;

pub use scalar::ONE_BITS;
pub use scalar::TOL_BITS;
pub use scalar::TOL2_BITS;
pub use errors::Error;
pub use knot_vec::KnotVec;
pub use bspcurve::BSplineCurve;
pub use bspsurface::BSplineSurface;
pub use bspsurface::CPRowIter;
pub use bspsurface::CPColumnIter;
