//! Values that a search hands out and takes.

use vstd::prelude::*;
use crate::score::Score;

verus! {

/// The id that a caller gives to a point.
pub type PointId = u64;

/// How two vectors are compared.
#[derive(Clone, Copy, Debug, PartialEq, Eq, Structural)]
pub enum DistanceMetric {
    Cosine,
    Euclidean,
    Dot,
}

/// Why the graph refuses a request.
#[derive(Clone, Copy, Debug, PartialEq, Eq, Structural)]
pub enum DBError {
    /// A vector has another dimension than the graph.
    VectorLengthMismatch { expected: usize, actual: usize },
    /// The bytes of a snapshot have another checksum than they should.
    SnapshotChecksum,
    /// A snapshot has a version that is not supported.
    SnapshotVersion(u32),
}

/// A point that a search found, with its score and the key that orders it.
#[derive(Clone, Copy, Debug, PartialEq, Eq, Structural)]
pub struct ScoredPoint {
    pub id: PointId,
    pub raw_score: Score,
    pub sort_key: Score,
}

/// A node that may become a neighbour, with its score and the key that orders
/// it: the smaller key is the better one.
#[derive(Clone, Copy, Debug, PartialEq, Eq, Structural)]
pub struct NodeCandidate {
    pub idx: usize,
    pub raw_score: Score,
    pub sort_key: Score,
}

/// What one search does otherwise than the index does by default.
#[derive(Clone, Copy, Debug)]
pub struct SearchRuntimeOptions {
    /// The size of the candidate list, which is never less than the number of points
    /// asked for.
    pub ef_search: Option<usize>,
    /// How many neighbours of a node are looked at in the lowest layer; `Some(0)`
    /// means all.
    pub neighbor_scan_cap_level0: Option<usize>,
    /// After how many neighbours of a node in a row that brought nothing the others
    /// are passed over, in the lowest layer; `Some(0)` means never.
    pub neighbor_scan_patience: Option<usize>,
    /// After how many nodes in a row whose neighbours brought nothing the search in
    /// the lowest layer ends; `Some(0)` means never.
    pub early_exit_patience: Option<usize>,
    /// By what the size of the candidate list is multiplied.
    pub expansion_mult: Option<usize>,
    /// How many nodes of the layer above enter the lowest layer.
    pub num_entry_seeds: Option<usize>,
    /// The size of the candidate list of a second search.
    pub adaptive_ef_high: Option<usize>,
    /// The best key above which a second search is made.
    pub adaptive_ef_score_threshold: Option<Score>,
}

impl Default for SearchRuntimeOptions {
    fn default() -> (r: Self)
        ensures
            r.ef_search is None,
            r.neighbor_scan_cap_level0 is None,
            r.neighbor_scan_patience is None,
            r.early_exit_patience is None,
            r.expansion_mult is None,
            r.num_entry_seeds is None,
            r.adaptive_ef_high is None,
            r.adaptive_ef_score_threshold is None,
    {
        SearchRuntimeOptions {
            ef_search: None,
            neighbor_scan_cap_level0: None,
            neighbor_scan_patience: None,
            early_exit_patience: None,
            expansion_mult: None,
            num_entry_seeds: None,
            adaptive_ef_high: None,
            adaptive_ef_score_threshold: None,
        }
    }
}

} // verus!
