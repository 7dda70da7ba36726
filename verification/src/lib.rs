//! Huffman coding: builds a prefix-code tree from a message's character
//! frequencies, derives a code table from the tree, and encodes and decodes
//! messages against that tree.
pub mod bits;
pub mod builder;
pub mod codec;
pub mod laws;
pub mod table;
pub mod tree;

pub use bits::BitSeq;
pub use builder::frequencies;
pub use codec::decode;
pub use codec::encode;
pub use builder::huff_tree;

pub use tree::HuffError;
pub use tree::HuffTree;
pub use tree::TreeRoot;
