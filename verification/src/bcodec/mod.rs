//! Bencode: values, decoding, searching and encoding.

pub mod as_maps;
pub mod bdecoder;
pub mod bencoder;
pub mod bvalue;
pub mod canonical;
pub mod concat;
pub mod display;
pub mod deep_finder;
pub mod finder_tree;
pub mod raw_finder;
pub mod roundtrip;
