//! Bit fields cut out of byte strings and written back into them, with the
//! Huffman coder built on top of them.
pub mod bin_field;
pub mod bits;
pub mod encode;
pub mod encode_laws;
pub mod field_laws;
pub mod frequency;
pub mod huffman;
pub mod huffman_laws;
pub mod huffman_optimal;

pub use bin_field::{read_bin_field, write_bin_field_into_pos, BinField};
