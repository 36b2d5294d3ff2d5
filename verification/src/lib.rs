//! Recovers, from a rasterised template made of tiled blocks, the palette
//! entry that dominates each block.
//!
//! A template is a flat RGBA buffer. Every block of it was painted from a small
//! palette, plus transparency. One pass over the buffer yields one byte per
//! block: the index of the palette colour that most opaque pixels of the block
//! show, or [`reduce::TRANSPARENT_PIXEL`] where no pixel shows a palette colour.
//!
//! - [`host`]: the loosely typed values in which a caller passes the palette.
//! - [`palette`]: the colour table, and how it is read from such a value.
//! - [`grid`]: where the pixels of each block lie in the buffer.
//! - [`reduce`]: the vote among the pixels of one block.
//! - [`scan`]: the pass over all blocks, on a pool of workers.

pub mod error;
pub mod grid;
pub mod host;
pub mod palette;
pub mod reduce;
pub mod scan;
