//! Lossless compression of byte buffers with static Huffman codes.
//!
//! A buffer is compressed by counting its bytes, building a Huffman tree over the
//! counts, reading one bit string per byte value off the tree, and packing the bit
//! strings of the buffer's bytes into a payload. Decompression reads the code
//! table back, builds a decoding tree from it, and walks that tree bit by bit.
//!
//! A compressed file has three parts:
//!
//! 1. the code table: the number of entries in eight bytes, least significant
//!    first, and for each entry the byte value, the length of its code in the
//!    same form, and the code as a text of the characters `0` and `1`;
//! 2. the number of encoded byte values, in eight bytes, least significant first;
//! 3. the payload: the codes of the buffer's bytes, one after the other, packed
//!    most significant bit first, the last byte filled up with zero bits.
//!
//! The count in the second part tells the decoder where the codes end, so that
//! the zero bits that fill up the last byte are never read as a code.
//!
//! Trees of equal weight are merged in the order in which they were queued, and
//! leaves of equal count in the order of their byte values: the same buffer
//! always gives the same file.
//!
//! What is proved of the whole: every buffer of at least one byte decompresses
//! from its compressed form to itself (`decompressor::lemma_round_trip`); no code
//! of a table begins another (`codes::lemma_code_table_prefix_free`); a byte value
//! that occurs more often has no longer code
//! (`depth::lemma_frequent_symbols_have_short_codes`); and a table that is written
//! out is read back as it was (`table::lemma_table_round_trip`).

pub mod bits;
pub mod builder;
pub mod codes;
pub mod compressor;
pub mod decompressor;
pub mod depth;
pub mod error;
pub mod frequency;
pub mod rebuild;
pub mod table;
pub mod tree;

pub use compressor::compress;
pub use decompressor::decompress;
pub use error::CodecError;
pub use tree::HuffmanNode;
