//! Byte-level helpers: the block chunker and the trailing-byte trimmer.

pub mod iter;
