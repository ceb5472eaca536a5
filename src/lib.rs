//! A decoder for the named binary tag format: a compact, big-endian,
//! recursive encoding of typed values, optionally wrapped in gzip.
//!
//! Every decoding step is stated over the byte grammar in [`grammar`], and the
//! decoded tree is tied to that grammar through [`tag::NbtTag::model`].

pub mod error;
pub mod grammar;
pub mod tag;
pub mod parser;
pub mod laws;
pub mod truncation;

pub use error::NbtError;
pub use tag::{NbtCompound, NbtList, NbtTag};
pub use parser::{NbtParser, DEFAULT_MAX_DEPTH};
