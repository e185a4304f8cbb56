//! Discrete core of a Whitted-style ray tracer.
//!
//! The renderer's floating-point geometry (vectors, matrices, shapes,
//! shading) lives outside this library; what is collected here is the part
//! of the pipeline whose behaviour is exact and provable: the pixel grid and
//! its row-major addressing, the PPM text encoder, the wavefront mesh line
//! parser, the refraction container-stack bookkeeping, and the pixel-index
//! scheduling that makes a chunked (parallel) render agree pixel for pixel
//! with a sequential one.

pub mod canvas;
pub mod obj_file;
pub mod ppm;
pub mod refraction;
pub mod render;
pub mod text;
