//! Verified encoder and decoder for the misa77 LZ stream format.

pub mod format;
pub mod error;
pub mod primitives;
pub mod decode_spec;
pub mod decode;
pub mod light_format;
pub mod match_find;
pub mod light_encode;
pub mod greedy_parse;
pub mod heavy_format;
pub mod heavy_encode;
pub mod sais;
pub mod live_set;
pub mod optimal;
pub mod light_optimal;
pub mod heavy_optimal;
pub mod block_parse;
pub mod encode;

pub use error::Error;
pub use decode::{decompress, decompress_into, decompressed_size};
pub use encode::{
    compress, compress_bound, compress_bound_level, compress_into, compress_into_level,
    compress_level,
};
