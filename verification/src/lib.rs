//! A Parquet reader whose decoding logic is proved against its format rules.
use vstd::prelude::*;

pub mod assembly;
mod bitreader;
pub mod bytes;
pub mod chunk;
pub mod classify;
pub mod codec;
pub mod dict;
pub mod error;
pub mod extract;
pub mod float;
pub mod footer;
pub mod gzip;
pub mod json;
pub mod laws;
pub mod leaf;
pub mod lz;
pub mod lz4;
pub mod meta;
pub mod nested;
pub mod page;
pub mod plain;
pub mod plan;
pub mod rle;
pub mod schema;
pub mod snappy;
pub mod text;
pub mod thrift;
pub mod value;
pub mod varint;
pub mod zstd;
pub mod zstd_fse;
pub mod zstd_huffman;
pub mod zstd_huffstream;
pub mod zstd_literals;
pub mod zstd_seqexec;
pub mod zstd_sequences;

pub use crate::error::PqError;
pub use crate::extract::{extract, extract_with_cap, DEFAULT_MAX_PAGE_SIZE};
pub use crate::json::{pqvalue_list_to_json, pqvalue_to_json, JsonPiece};
pub use crate::value::PqValue;
