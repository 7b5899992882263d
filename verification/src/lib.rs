//! Point arithmetic on the Baby Jubjub twisted Edwards curve.
//!
//! The curve is `a*x^2 + y^2 = 1 + d*x^2*y^2` over the prime field of a fixed
//! 254-bit prime `q`. The crate provides the field primitives (canonical
//! reduction and modular inverse) and the curve operations (point addition
//! and double-and-add scalar multiplication) built on them, all over
//! arbitrary-precision integers.

pub mod bigint;
pub mod curve;
pub mod field;

pub use curve::Babyjubjub;
pub use curve::CurveError;
pub use curve::Point;
