# compressor

A verified library of two lossless compressors, LZ78 and Huffman coding, and
the bit packing they share, with a command-line front end.

- `src/` is the library, written in Verus: every function carries a contract
  that the verifier proves, except the wrappers of `ahash::AHashMap` in
  `tables.rs`, whose contracts are trusted: they state what `new`, `get` and
  `insert` of that map do, as its source shows.
  - `bits.rs`: the model of a bit stream (least significant bit first) and
    the facts about it.
  - `bitwriter.rs`, `bitreader.rs`, `bit_traits.rs`: packing integers, flags
    and values with continuation bits into bytes, and reading them back.
  - `lz78.rs`: LZ78 encoding and decoding, and the proof that decoding an
    encoding gives back the input.
  - `heap.rs`: the binary heap that orders the subtrees of a Huffman tree.
  - `tables.rs`: the `ahash::AHashMap` tables of the Huffman coder, declared
    with what their lookups and inserts do.
  - `huffman.rs`: Huffman encoding and decoding, the proof that the codes are
    prefix-free and that decoding an encoding gives back the input.
- `tests/`: tests of the library.
- `app/`: the command-line program (`encode`/`decode`, `--algorithm`,
  `--input-file`, `--output-file`).
