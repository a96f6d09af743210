# compress_trie_rs

Trie-based dictionary compression (LZ78 / LZW style), written in Verus.

- `src/lzw_encode.rs` — LZW compression into codes, and 12-bit packing of codes.
  The spec function `encoded` defines the code sequence: repeatedly emit the
  longest dictionary match and add that match extended by the next byte.
- `src/lzw_decode.rs` — LZW decompression; `decoded` is its specification.
- `src/roundtrip.rs` — proofs that decompression inverts compression, that
  unpacking inverts packing, and bounds on the produced codes.
- `src/lzw_table.rs` — code allocation with a code width that grows from 9 to 16 bits.
- `src/trie.rs` — a byte trie (children in a `HashMap`) mapping sequences to
  codes, with the invariant that codes are unique and below the next code.
- `src/dictionary.rs` — a linear list of (sequence, code) entries.
- `tests/` — executable tests.
