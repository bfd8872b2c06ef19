//! Compression and decompression of data in the RefPack format used by many
//! Electronic Arts games of the 90s and 2000s.
//!
//! RefPack (also known as QFS) is a lossless LZ77-style scheme: the compressed
//! stream is a header followed by control blocks, each a command code and the
//! literal bytes that go with it. Copy commands refer back into the bytes
//! already decompressed; a stop command ends the stream.
//!
//! Every operation works on byte slices and byte vectors: reading from and
//! writing to files or other streams is left to the caller.
#![allow(unused_imports)]

pub mod control;
pub mod corpus;
pub mod data;
mod error;
pub mod format;
pub mod header;

pub use crate::data::compression::{compress, easy_compress, CompressionOptions};
pub use crate::data::decompression::{decompress, easy_decompress};
pub use crate::error::{Error as RefPackError, IoErrorKind, RefPackResult};
