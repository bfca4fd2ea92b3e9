//! Logic of a vector index: compressed multi-vector storage, an HNSW graph and
//! the rankings drawn from them.

pub mod arith;
pub mod bitpack;
pub mod commit;
pub mod config;
pub mod engine;
pub mod error;
pub mod hnsw;
pub mod ids;
pub mod laws;
pub mod muvera;
pub mod order;
pub(crate) mod parallel;
pub mod rerank;
pub mod score;
pub mod serve;
pub mod sparse;
pub mod storage;
pub mod tally;
pub mod xorshift;
