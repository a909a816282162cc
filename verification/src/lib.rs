//! A decompressor for zlib streams, as fast compressors for images write them.
//!
//! [`decompress_to_vec`] decompresses a stream that is there as a whole. [`Decompressor`] takes
//! the stream and gives the output in chunks.
//!
//! The zlib and deflate formats are stated in [`format`](mod@format), as steps from one state of
//! decoding to the next. `format::decode` is what all steps together make of a stream. The
//! decompressor is proved to take exactly these steps, whatever the chunks are; [`reading`] states
//! where one call stops. What holds of decoding as a whole is in [`laws`], and [`encoding`] shows
//! that decoding gives back what a compressor has written.
//!
//! What the parts of a stream mean is also stated in numbers that decoding does not use, in
//! [`rules`] and [`encoding`], and decoding is held to that: [`parsing`] shows that a stream is
//! accepted exactly if a compressor may have written it, and [`refusal`] shows how each part of a
//! stream is answered.
pub mod adler;
mod bit_buffer;
pub mod bits;
mod code_length_table;
pub mod decompress;
mod distance_code;
pub mod encoding;
pub mod error;
pub mod format;
pub mod huffman;
pub mod laws;
mod litlen_table;
mod long_codes;
pub mod output;
pub mod parsing;
pub mod reading;
pub mod refusal;
pub mod rules;
pub mod tables;

pub use decompress::{decompress_to_vec, Decompressor};
pub use error::DecompressionError;
