//! Trie-based dictionary compression in the LZ78 / LZW family.
//!
//! - [`trie`]: a byte trie mapping sequences to codes.
//! - [`lzw_table`]: code allocation with a growing code width.
//! - [`lzw_encode`]: LZW compression and 12-bit code packing.
//! - [`lzw_decode`]: LZW decompression.
//! - [`dictionary`]: a linear sequence-to-code dictionary.
//! - [`roundtrip`]: the laws that tie compression and decompression together.
//! - [`bytes`]: byte-sequence helpers shared by the modules above.

pub mod bytes;
pub mod trie;
pub mod lzw_table;
pub mod lzw_encode;
pub mod lzw_decode;
pub mod roundtrip;
pub mod dictionary;
