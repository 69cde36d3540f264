//! A small radar simulation model: aircraft tracks advanced on a fixed tick,
//! mapped into render space, and described by labels kept in step with them.
pub mod units;
pub mod text;
pub mod aircraft;
pub mod render;
pub mod camera;
