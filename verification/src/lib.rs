//! An in-memory raster-image editing core: a pixel surface with masked
//! drawing, a bounded undo stack, integer rasterization primitives, a
//! scanline flood fill, and whole-surface or selection-scoped transforms.
//!
//! The host application (window system, file codecs, input delivery) sits
//! outside this crate; the core works on plain pixel buffers and reports
//! notifications as typed values.

pub mod canvas;
pub mod color;
pub mod events;
pub mod surface;
pub mod transform;
