//! A codec for the BER tag-length-value wire format: a tree of tagged values
//! is written as bytes, and bytes are read back into such a tree.

pub mod common;
pub mod parse;
pub mod structure;
pub mod structures;
pub mod laws;
pub mod write;
