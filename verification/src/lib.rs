//! Block-oriented compression core for a columnar genomic container.
//!
//! The crate tokenizes sequencing read names into typed records backed by a
//! per-block dictionary, runs a stream-wise entropy pipeline over the
//! column-store layout, dispatches general-purpose codecs over arbitrary
//! buffers, and drives a work pipeline that pairs every submission with
//! exactly one completion.

pub mod analyzer;
pub mod compressor;
pub mod dictionary;
pub mod encoder;
pub mod error;
pub mod post_compression;
pub mod tokenizer;
pub mod utils;
