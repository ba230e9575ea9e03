//! An escape-time fractal rendering engine: a fixed-point colour palette, an
//! adaptive boundary-tracing rectangle fill, a tiled double-buffered pixel
//! store and the frame coordinator that sequences rendering, buffer swaps and
//! view commands.

pub mod palette;
pub mod tracer;
pub mod pixels;
pub mod buffer;
pub mod coordinator;
