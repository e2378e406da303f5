//! Two small in-memory containers over byte buffers: a first-in, first-out
//! queue and a byte-keyed trie. Every operation carries a contract, stated
//! over a mathematical model of the container and proved against the code.

mod arena;
pub mod queue;
pub mod trie;
pub mod words;
