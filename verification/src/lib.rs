//! Verified core of a raster-image toolkit: resampling of RGBA8 buffers to
//! new dimensions with a selectable filter kernel, and disposal-aware
//! compositing of frame sequences onto a persistent canvas.
//!
//! Decoding, encoding and other I/O stay outside this crate: the library
//! consumes and produces plain pixel buffers.

pub mod compose;
pub mod kernel;
pub mod pixel;
pub mod resize;
