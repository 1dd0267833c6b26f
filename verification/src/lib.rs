//! The integer core of a software rasterizer: line stepping and clipping
//! decisions, pixel and depth buffers, the image file for frames and
//! textures, the records of mesh files, and what a display needs of a frame.
//!
//! Coordinates of geometry are real numbers and are handled by the caller;
//! this library works on pixels, bytes and the keys of depths.

pub mod geometry;
pub mod text;
pub mod ppm;
pub mod depth;
pub mod renderer;
pub mod surface;
pub mod model;
pub mod terminal;
