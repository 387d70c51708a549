//! Verified core of a small whole-file convenience layer.
//!
//! Opening, reading and writing the files themselves is left to a thin
//! unverified shell around this crate. Everything that computes on the data
//! lives here with proved contracts: decoding a byte buffer as UTF-8 text,
//! encoding text back into bytes, and splitting a byte stream into text
//! lines the way a buffered line reader does.

mod lines;
mod text;

pub use lines::chomp_cr;
pub use lines::lemma_trailing_newline;
pub use lines::lines_text;
pub use lines::spec_lines;
pub use lines::split_lines;
pub use lines::split_rest;
pub use text::decode_text;
pub use text::encode_text;
pub use text::lemma_text_round_trip;
pub use text::InvalidData;
