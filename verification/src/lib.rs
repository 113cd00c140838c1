//! Positional byte-frequency analysis over the leading bytes of files.
//!
//! The library accumulates, for every byte offset within a fixed-size
//! sampling window and every byte value, how many files carried that value
//! at that offset.  The result is a dense counter matrix that can be
//! serialized as comma-separated decimal rows.

pub mod accumulator;
pub mod driver;
pub mod output;
pub mod tree;
