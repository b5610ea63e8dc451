//! What holds of the decoders taken together.
//!
//! Most of these say that a decoder gives back what was written: the functions named `.._form` say
//! how something is written. They start at numbers and end at whole files.

pub mod numbers;
pub mod fields;
pub mod levels;
pub mod values;
pub mod decimals;
pub mod floats;
pub mod texts;
pub mod json_texts;
pub mod blocks;
pub mod snappy_forms;
pub mod back_streams;
pub mod huffman;
pub mod tree_forms;
pub mod literals;
pub mod sequences;
pub mod forward_streams;
pub mod descriptions;
pub mod zstd_frames;
pub mod deflate;
pub mod gzip_members;
pub mod fse_tables;
pub mod frames;
pub mod codecs;
pub mod leaf_specs;
pub mod schemas;
pub mod shapes;
pub mod headers;
pub mod cuts;
pub mod metadata;
pub mod pages;
pub mod stored;
pub mod payloads;
pub mod v2_payloads;
pub mod counts;
pub mod nesting;
pub mod structs;
pub mod lists;
pub mod struct_columns;
pub mod columns;
pub mod caps;
pub mod closed;
pub mod files;
pub mod nested_files;
pub mod plans;
pub mod shape_files;
pub mod struct_fields;
pub mod tables;
pub mod v2_tables;
pub mod refusals;
