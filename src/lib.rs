//! Cubic Bézier easing curves, evaluated in decimal fixed point.
//!
//! A coordinate `v: i64` stands for the real number `v / ONE`; `ONE` is 10^9.

pub mod bezier;
pub mod fixed;

pub use bezier::{BezierCurve, Vector2};
pub use fixed::ONE;
