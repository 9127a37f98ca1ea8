//! Compression, decompression and save-file structure for the save and
//! scenario files of Gangsters: Organized Crime.

pub mod bits;
pub mod huffman_code;
pub mod huffman_node;
pub mod huffman_table;
pub mod read_buffer;
pub mod compression;
pub mod xtx;
pub mod goc_save;
