//! DwarFS block compression.
//!
//! Each section payload is compressed with one of the codecs in
//! [`Compression`]. This module exposes a single entry point for
//! decoding any supported codec, validates the framing each codec uses,
//! and bounds the decoded size to defend against hostile inputs.

pub mod brotli;
pub mod capped;
pub mod dispatch;
pub mod framing;
pub mod lz4;
pub mod lzma;
pub mod none;
pub mod zstd;

pub use capped::CappedWriter;
pub use dispatch::{codec_name, decompress, decompress_prefix};
