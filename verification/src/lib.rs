//! Bit-level packing of integers into byte streams, and two lossless
//! compressors built on it: LZ78 and Huffman coding.
pub mod bits;
pub mod bitwriter;
pub mod bitreader;
pub mod bit_traits;
pub mod lz78;
pub mod heap;
pub mod tables;
pub mod huffman;
