//! A lossless block compressor for PCM audio and other byte data.
//!
//! An input is cut into blocks of 64 KiB. A block goes through a filter, through LZSS and through
//! an entropy coding, and of the combinations that are tried the shortest is kept. The central
//! promise is `container::lemma_round_trip`: what `container::decompress` makes of what
//! `container::compress` wrote is the input. What each operation does to bytes and numbers is stated
//! in `laws`, and that no prefix code is shorter than the Huffman code in `optimal`.

pub mod bits;
pub mod block;
pub mod bytes;
pub mod canonical;
pub mod container;
pub mod delta;
pub mod error;
pub mod filter;
pub mod huffman;
pub mod laws;
pub mod lzss;
pub mod matcher;
pub mod optimal;
pub mod planar;
pub mod predict;
pub mod predictor;
pub mod sample;
pub mod stereo;
pub mod streams;
pub mod tree;
