//! A codec for NBT, a tagged, length-prefixed, big-endian binary format for
//! hierarchical data.
//!
//! - `tag`: the tag tree, its compound, its accessors and its leaf count;
//! - `model`: what a tag tree is, as a mathematical value;
//! - `bytes`, `text`: integers as big-endian bytes, strings as UTF-8;
//! - `write`, `read`: the bytes of a tree, the writer and the reader;
//! - `laws`, `cut`: reading gives back what was written, and what comes of
//!   bytes that are wrong or end too early;
//! - `bridge`: a tree as a structured value of records `{type, value}`, for
//!   a host with one numeric type, and back;
//! - `display`: the text of a tree;
//! - `load`: what comes of picking a file and reading it.

pub mod bridge;
pub mod bytes;
pub mod cut;
pub mod display;
pub mod laws;
pub mod load;
pub mod model;
pub mod read;
pub mod tag;
pub mod text;
pub mod write;
