//! Packs named raster layers into a spatial data container: a header, a
//! dimension chunk, one attribute chunk per layer and one interleaved data
//! chunk, all little-endian.

pub mod codec;
pub mod container;
pub mod dimensions;
pub mod error;
pub mod ingest;
pub mod layer;
