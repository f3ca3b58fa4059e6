//! A Huffman-style entropy coder: byte frequencies, a prefix-code tree,
//! per-symbol bit codes, and a dense bit packer with a three-bit header.
pub mod tree;
pub mod code;
pub mod builder;
pub mod pack;
pub mod laws;
pub mod text;

pub use tree::{Word, SZEntry};
pub use builder::{fill_dict, build_tree, message_tree};
pub use code::{encode, decode};
pub use pack::{inflate, deflate};
