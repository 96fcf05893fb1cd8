//! What can be wrong with compressed data.

use vstd::prelude::*;

verus! {

/// The reason why compressed data was refused.
#[derive(Debug, Clone, Copy, PartialEq, Eq)]
pub enum Error {
    /// The data ends in the middle of the header or of a block.
    UnexpectedEof,
    /// The data does not start with the magic number.
    InvalidMagic,
    /// A block has a type that does not exist.
    UnknownBlockType,
    /// A Huffman section is shorter than its header.
    HuffmanTooShort,
    /// A Huffman section holds symbols but no codes.
    EmptyHuffmanTable,
    /// The code lengths of a Huffman section are not those of a prefix code.
    InvalidCodeLengths,
    /// A Huffman section holds bits that are no code.
    HuffmanDecode,
    /// A literal run has no literals.
    ZeroLiteralCount,
    /// A literal run is longer than the data.
    TruncatedLiteralRun,
    /// A back-reference is cut off.
    TruncatedBackref,
    /// A back-reference points before the start of the window.
    BackrefOutOfBounds,
    /// A block has another size than it should.
    SizeMismatch { got: usize, expected: usize },
    /// A three-stream section is shorter than its header.
    Huf3TooShort,
    /// The streams of a three-stream section are longer than the section.
    Huf3SectionOverflow,
    /// The literals of a three-stream section are used up.
    Huf3LitsTruncated,
    /// The offsets of a three-stream section are used up.
    Huf3OffsTruncated,
    /// A four-stream section is shorter than its header.
    Huf4TooShort,
    /// The streams of a four-stream section are longer than the section.
    Huf4SectionOverflow,
    /// The literals of a four-stream section are used up.
    Huf4LitsTruncated,
    /// The offsets of a four-stream section are used up.
    Huf4OffsTruncated,
}

/// An outcome is the given one.
pub open spec fn is_outcome(out: Result<Vec<u8>, Error>, expected: Result<Seq<u8>, Error>) -> bool {
    match out {
        Ok(v) => expected == Ok::<Seq<u8>, Error>(v@),
        Err(e) => expected == Err::<Seq<u8>, Error>(e),
    }
}

} // verus!
