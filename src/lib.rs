//! A small pixel framebuffer: clipped rectangle fills and sprite blits over a
//! row-major buffer of packed 32-bit colors, the frame that the demo draws,
//! and the pacing decision of its frame loop.
pub mod pacing;
pub mod raster;
pub mod scene;
