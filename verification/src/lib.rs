//! A Huffman codec: frequency counting, an array-backed min-heap, tree
//! construction, code-table generation, a compact wire format and a
//! bit-level encoder and decoder, each with a machine-checked contract.
//! What holds of the codec as a whole is proved in `laws`: what is encoded
//! decodes to itself, and no prefix-free code takes fewer bits.

pub mod bits;
pub mod codes;
pub mod error;
pub mod format;
pub mod heap;
pub mod huffman;
pub mod laws;
pub mod leaves;
pub mod node;
pub mod node_order;
pub mod operations;
pub mod optimal;
pub mod utils;
