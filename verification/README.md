# goc_save_editor

Compression, decompression and section parsing for the save and scenario
files of Gangsters: Organized Crime, verified with Verus.

A save is compressed in two stages: run-length encoding (`compression/rle.rs`)
and then Huffman coding (`compression/huffman.rs`), whose tree is written in
front of the coded bits (`huffman_node.rs`, `huffman_code.rs`,
`huffman_table.rs`). A decompressed save is a count of sections followed by
the sections (`goc_save.rs`). `xtx.rs` decrypts the game's `.xtx` data files.

`src/` is the verified library; `app/` reads and writes files and prints.
