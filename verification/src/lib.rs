//! An immutable byte rope: a logical byte sequence represented as a tree of
//! shared segments, so that concatenation and sharing never copy the bytes.
//!
//! A [`rope::Rope`] is built with a [`builder::RopeBuilder`] and consumed
//! through a [`reader::RopeReader`], which walks the shared tree without
//! copying.

pub mod builder;
pub mod hashing;
pub mod laws;
pub mod reader;
pub mod rope;
pub mod support;

pub use builder::RopeBuilder;
pub use hashing::rope_hash;
pub use reader::RopeReader;
pub use rope::Rope;
