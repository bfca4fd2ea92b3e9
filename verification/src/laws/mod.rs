//! What the operations of the library are for, stated over their inputs and results.

pub mod best;
pub mod candidates;
pub mod documents;
pub mod encode;
pub mod formats;
pub mod graph;
pub mod groups;
pub mod kmeans;
pub mod late;
pub mod linking;
pub mod neighbours;
pub mod numbering;
pub mod probe;
pub mod queries;
pub mod request;
pub mod search;
pub mod select;
pub mod stored;
pub mod sums;
