//! Length-limited canonical Huffman coding: code lengths from symbol
//! weights, canonical codes from code lengths, and a flat decode table.

pub mod arith;
pub mod bits;
pub mod canonical;
pub mod lengths;
pub mod huffman;

pub use bits::Bits;
pub use huffman::{HuffmanDecoder, HuffmanEncoder};
