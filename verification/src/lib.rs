//! Tolerant numerical-geometry core for an offline ray tracer.
//!
//! The library models real coordinates as exact rational numbers, so every
//! arithmetic contract is stated and proved over mathematical values rather
//! than bit patterns.  Points, vectors, colors and square matrices are
//! immutable value types; equality on all of them goes through a tiered
//! tolerance policy, under which not-a-number and infinite sentinels never
//! compare equal to anything.

pub mod arith;
pub mod canvas;
pub mod color;
pub mod epsilon;
pub mod equality;
pub mod error;
pub mod extended;
pub mod laws;
pub mod matrix;
pub mod point;
pub mod rat;
pub mod scalar;
pub mod tuple;
pub mod vector;

pub use canvas::Canvas;
pub use color::{color, bytes_to_color, color_to_bytes, Color3};
pub use epsilon::EpsilonTier;
pub use equality::ApproxEqual;
pub use error::TracerError;
pub use extended::Extended;
pub use matrix::Matrix;
pub use point::{point, Point3};
pub use scalar::Scalar;
pub use tuple::{tuple, Tuple4};
pub use vector::{vector, Vec3};
