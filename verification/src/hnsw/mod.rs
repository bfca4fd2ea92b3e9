//! A hierarchical navigable small-world graph.

pub mod arena;
pub mod batch;
pub mod descend;
pub mod edges;
pub mod filter_edges;
pub mod frame;
pub mod graph;
pub mod insert;
pub mod lid;
pub mod link;
pub mod listing;
pub mod quant;
pub mod queue;
pub mod rcm;
pub mod reorder;
pub mod round_trip;
pub mod search;
pub mod select;
pub mod snapshot;
pub mod space;
pub mod types;
