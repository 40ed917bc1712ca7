//! The part of a small path tracer that is decided on whole numbers: the
//! 8-bit RGB image buffer and the walk that fills it pixel by pixel, its
//! plain-text PPM encoding, and the bounce budget of a path. The geometry and
//! the colours, which are real numbers, are the caller's.

pub mod camera;
pub mod renderers;
