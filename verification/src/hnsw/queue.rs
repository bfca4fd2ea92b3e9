//! The order of nodes in the queues of a search.

use vstd::prelude::*;
use core::cmp::Ordering;
use vstd::std_specs::cmp::{PartialEqSpecImpl, PartialOrdSpecImpl};
use crate::hnsw::types::NodeCandidate;
use crate::score;
use crate::score::Score;

verus! {

/// A node on the way to others, and how far it may still go.
#[derive(Clone, Copy, Debug)]
pub struct NodeRoutingEntry {
    pub node: NodeCandidate,
    pub passes_filter: bool,
    pub budget: usize,
}

/// A node among the results. Of two results the farther one is the greater.
#[derive(Clone, Copy, Debug)]
pub struct NodeResult(pub NodeCandidate);

/// How two numbers compare as IEEE-754 defines it: not at all where one is a NaN.
pub open spec fn compared(a: Score, b: Score) -> Option<Ordering> {
    if score::nan(a) || score::nan(b) {
        None
    } else if score::value_key(a) < score::value_key(b) {
        Some(Ordering::Less)
    } else if score::value_key(a) == score::value_key(b) {
        Some(Ordering::Equal)
    } else {
        Some(Ordering::Greater)
    }
}

/// How two numbers compare.
pub fn compare(a: Score, b: Score) -> (r: Option<Ordering>)
    ensures
        r == compared(a, b),
{
    if score::is_nan(a) || score::is_nan(b) {
        None
    } else if score::value_rank(a) < score::value_rank(b) {
        Some(Ordering::Less)
    } else if score::value_rank(a) == score::value_rank(b) {
        Some(Ordering::Equal)
    } else {
        Some(Ordering::Greater)
    }
}

/// How two candidates stand in a queue that hands out the greatest: the nearer one
/// is the greater.
pub fn compare_candidates(a: &NodeCandidate, b: &NodeCandidate) -> (r: Option<Ordering>)
    ensures
        r == compared(b.sort_key, a.sort_key),
{
    compare(b.sort_key, a.sort_key)
}

impl PartialEq for NodeRoutingEntry {
    fn eq(&self, other: &Self) -> (r: bool) {
        matches!(compare(self.node.sort_key, other.node.sort_key), Some(Ordering::Equal))
    }
}

impl PartialEqSpecImpl for NodeRoutingEntry {
    open spec fn obeys_eq_spec() -> bool {
        true
    }

    open spec fn eq_spec(&self, other: &Self) -> bool {
        compared(self.node.sort_key, other.node.sort_key) == Some(Ordering::Equal)
    }
}

impl PartialOrd for NodeRoutingEntry {
    fn partial_cmp(&self, other: &Self) -> (r: Option<Ordering>) {
        compare(other.node.sort_key, self.node.sort_key)
    }
}

impl PartialOrdSpecImpl for NodeRoutingEntry {
    open spec fn obeys_partial_cmp_spec() -> bool {
        true
    }

    open spec fn partial_cmp_spec(&self, other: &Self) -> Option<Ordering> {
        compared(other.node.sort_key, self.node.sort_key)
    }
}

impl PartialEq for NodeResult {
    fn eq(&self, other: &Self) -> (r: bool) {
        matches!(compare(self.0.sort_key, other.0.sort_key), Some(Ordering::Equal))
    }
}

impl PartialEqSpecImpl for NodeResult {
    open spec fn obeys_eq_spec() -> bool {
        true
    }

    open spec fn eq_spec(&self, other: &Self) -> bool {
        compared(self.0.sort_key, other.0.sort_key) == Some(Ordering::Equal)
    }
}

impl PartialOrd for NodeResult {
    fn partial_cmp(&self, other: &Self) -> (r: Option<Ordering>) {
        compare(self.0.sort_key, other.0.sort_key)
    }
}

impl PartialOrdSpecImpl for NodeResult {
    open spec fn obeys_partial_cmp_spec() -> bool {
        true
    }

    open spec fn partial_cmp_spec(&self, other: &Self) -> Option<Ordering> {
        compared(self.0.sort_key, other.0.sort_key)
    }
}

/// Numbers that are not NaNs stand in one order: exactly one of less, equal and
/// greater, and less one way is greater the other way.
pub proof fn law_compared(a: Score, b: Score, c: Score)
    requires
        !score::nan(a),
        !score::nan(b),
        !score::nan(c),
    ensures
        compared(a, b) is Some,
        compared(a, b) == Some(Ordering::Less) <==> compared(b, a) == Some(Ordering::Greater),
        compared(a, b) == Some(Ordering::Less) && compared(b, c) == Some(Ordering::Less) ==> compared(a, c) == Some(
            Ordering::Less,
        ),
{
}

} // verus!
