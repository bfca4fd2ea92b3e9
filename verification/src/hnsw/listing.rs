//! What a graph holds, listed and counted, and the settings read from text.

use vstd::prelude::*;
use vstd::string::*;
use crate::hnsw::graph::HNSWIndex;
use crate::hnsw::types::PointId;
use crate::score::Score;

verus! {

/// The first `upto` points that are not deleted, by their nodes.
pub open spec fn active_nodes(deleted: Seq<bool>, upto: nat) -> Seq<int>
    decreases upto,
{
    if upto == 0 {
        Seq::empty()
    } else if deleted[upto - 1] {
        active_nodes(deleted, (upto - 1) as nat)
    } else {
        active_nodes(deleted, (upto - 1) as nat).push(upto - 1)
    }
}

/// Whether pairs list points with their vectors.
pub open spec fn lists_nodes(index: HNSWIndex, pairs: Seq<(PointId, &[Score])>, nodes: Seq<int>) -> bool {
    &&& pairs.len() == nodes.len()
    &&& forall|k: int|
        0 <= k < nodes.len() ==> (#[trigger] pairs[k]).0 == index.ids@[nodes[k]] && pairs[k].1@
            == index.vectors.vectors()[nodes[k]]
}

/// How often a level occurs, with higher ones counted as the highest.
pub open spec fn level_count(levels: Seq<usize>, level: int, top: int) -> nat
    decreases levels.len(),
{
    if levels.len() == 0 {
        0
    } else {
        level_count(levels.drop_last(), level, top) + if capped_level(levels.last() as int, top) == level {
            1nat
        } else {
            0nat
        }
    }
}

/// A level, or the highest where it is above that.
pub open spec fn capped_level(level: int, top: int) -> int {
    if level < top {
        level
    } else {
        top
    }
}

impl HNSWIndex {
    /// All points with their vectors, deleted ones as well.
    pub fn iter_vectors(&self) -> (r: Vec<(PointId, &[Score])>)
        requires
            self.wf(),
        ensures
            lists_nodes(*self, r@, Seq::new(self.nodes(), |i: int| i)),
    {
        let n: usize = self.len();
        let mut out: Vec<(PointId, &[Score])> = Vec::with_capacity(n);
        let mut i: usize = 0;
        while i < n
            invariant
                i <= n,
                n == self.nodes(),
                self.wf(),
                out@.len() == i,
                forall|k: int|
                    0 <= k < i ==> (#[trigger] out@[k]).0 == self.ids@[k] && out@[k].1@ == self.vectors.vectors()[k],
            decreases n - i,
        {
            out.push((self.ids[i], self.vector_slice(i)));
            i += 1;
        }
        out
    }

    /// The points that are not deleted, with their vectors.
    pub fn iter_active_vectors(&self) -> (r: Vec<(PointId, &[Score])>)
        requires
            self.wf(),
        ensures
            lists_nodes(*self, r@, active_nodes(self.deleted@, self.nodes())),
    {
        let n: usize = self.len();
        let mut out: Vec<(PointId, &[Score])> = Vec::new();
        let mut i: usize = 0;
        while i < n
            invariant
                i <= n,
                n == self.nodes(),
                self.wf(),
                lists_nodes(*self, out@, active_nodes(self.deleted@, i as nat)),
            decreases n - i,
        {
            if !self.deleted[i] {
                out.push((self.ids[i], self.vector_slice(i)));
            }
            i += 1;
        }
        out
    }

    /// The levels of the points that are not deleted.
    pub open spec fn active_levels(&self) -> Seq<usize> {
        let nodes = active_nodes(self.deleted@, self.nodes());
        Seq::new(nodes.len(), |k: int| self.levels@[nodes[k]] as usize)
    }

    /// The levels of the points that are not deleted.
    pub fn iter_active_levels(&self) -> (r: Vec<usize>)
        requires
            self.wf(),
        ensures
            r@ == self.active_levels(),
    {
        let n: usize = self.len();
        let mut out: Vec<usize> = Vec::new();
        let mut i: usize = 0;
        while i < n
            invariant
                i <= n,
                n == self.nodes(),
                self.wf(),
                out@.len() == active_nodes(self.deleted@, i as nat).len(),
                forall|k: int|
                    0 <= k < out@.len() ==> #[trigger] out@[k] == self.levels@[active_nodes(
                        self.deleted@,
                        i as nat,
                    )[k]],
            decreases n - i,
        {
            if !self.deleted[i] {
                out.push(self.levels[i] as usize);
            }
            i += 1;
        }
        assert(out@ =~= self.active_levels());
        out
    }

    /// How many points that are not deleted have each level, up to the highest;
    /// those above it are counted there.
    pub fn level_histogram(&self) -> (r: Vec<usize>)
        requires
            self.wf(),
        ensures
            r@.len() == self.top_level() + 1,
            forall|l: int|
                0 <= l < r@.len() ==> #[trigger] r@[l] == level_count(self.active_levels(), l, self.top_level()),
    {
        let top: usize = self.current_max_level();
        let levels: Vec<usize> = self.iter_active_levels();
        let mut counts: Vec<usize> = Vec::with_capacity(top + 1);
        let mut l: usize = 0;
        while l <= top
            invariant
                l <= top + 1,
                top < usize::MAX,
                counts@.len() == l,
                forall|k: int| 0 <= k < l ==> #[trigger] counts@[k] == 0,
            decreases top + 1 - l,
        {
            counts.push(0);
            l += 1;
        }
        let mut i: usize = 0;
        while i < levels.len()
            invariant
                i <= levels@.len(),
                counts@.len() == top + 1,
                forall|l: int|
                    0 <= l < counts@.len() ==> #[trigger] counts@[l] == level_count(
                        levels@.take(i as int),
                        l,
                        top as int,
                    ) && counts@[l] <= i,
            decreases levels@.len() - i,
        {
            assert(levels@.take(i + 1).drop_last() =~= levels@.take(i as int));
            assert(levels@.take(i + 1).last() == levels@[i as int]);
            let at: usize = if levels[i] < top {
                levels[i]
            } else {
                top
            };
            let ghost before = counts@;
            let count: usize = counts[at];
            counts.set(at, count + 1);
            assert forall|l: int| 0 <= l < counts@.len() implies #[trigger] counts@[l] == level_count(
                levels@.take(i + 1),
                l,
                top as int,
            ) && counts@[l] <= i + 1 by {
                assert(before[l] == level_count(levels@.take(i as int), l, top as int));
            }
            i += 1;
        }
        assert(levels@.take(i as int) =~= levels@);
        counts
    }
}

/// Bytes without underscores.
pub open spec fn without_underscores(bytes: Seq<u8>) -> Seq<u8>
    decreases bytes.len(),
{
    if bytes.len() == 0 {
        Seq::empty()
    } else if bytes.last() == 95 {
        without_underscores(bytes.drop_last())
    } else {
        without_underscores(bytes.drop_last()).push(bytes.last())
    }
}

/// The digits of a number in text: all of it, or what follows a plus sign.
pub open spec fn number_digits(text: Seq<u8>) -> Seq<u8> {
    if text.len() > 0 && text[0] == 43 {
        text.skip(1)
    } else {
        text
    }
}

/// Whether bytes are decimal digits.
pub open spec fn all_digits(bytes: Seq<u8>) -> bool {
    bytes.len() > 0 && forall|i: int| 0 <= i < bytes.len() ==> 48 <= #[trigger] bytes[i] <= 57
}

/// The number that decimal digits stand for.
pub open spec fn decimal(digits: Seq<u8>) -> nat
    decreases digits.len(),
{
    if digits.len() == 0 {
        0
    } else {
        (decimal(digits.drop_last()) * 10 + (digits.last() - 48)) as nat
    }
}

/// The count that a text stands for, if it does: decimal digits with underscores
/// anywhere, after a plus sign or none, of a value that can be held.
pub open spec fn count_of(text: Seq<u8>) -> Option<usize> {
    let digits = number_digits(without_underscores(text));
    if all_digits(digits) && decimal(digits) <= usize::MAX {
        Some(decimal(digits) as usize)
    } else {
        None
    }
}

proof fn lemma_decimal_grows(digits: Seq<u8>, k: int)
    requires
        all_digits(digits),
        0 <= k <= digits.len(),
    ensures
        decimal(digits.take(k)) <= decimal(digits),
    decreases digits.len() - k,
{
    if k < digits.len() {
        lemma_decimal_grows(digits, k + 1);
        assert(digits.take(k + 1).drop_last() =~= digits.take(k));
        assert(48 <= digits[k] <= 57);
    } else {
        assert(digits.take(k) =~= digits);
    }
}

/// Bytes without underscores.
fn drop_underscores(bytes: &[u8]) -> (r: Vec<u8>)
    ensures
        r@ == without_underscores(bytes@),
{
    let mut out: Vec<u8> = Vec::with_capacity(bytes.len());
    let mut i: usize = 0;
    while i < bytes.len()
        invariant
            i <= bytes@.len(),
            out@ == without_underscores(bytes@.take(i as int)),
        decreases bytes@.len() - i,
    {
        assert(bytes@.take(i + 1).drop_last() =~= bytes@.take(i as int));
        assert(bytes@.take(i + 1).last() == bytes@[i as int]);
        if bytes[i] != 95 {
            out.push(bytes[i]);
        }
        i += 1;
    }
    assert(bytes@.take(i as int) =~= bytes@);
    out
}

/// The count that a text stands for.
pub fn parse_count(text: &str) -> (r: Option<usize>)
    ensures
        r == count_of(text.spec_bytes()),
{
    let plain: Vec<u8> = drop_underscores(text.as_bytes());
    let from: usize = if plain.len() > 0 && plain[0] == 43 {
        1
    } else {
        0
    };
    let ghost digits = number_digits(plain@);
    assert(digits =~= plain@.skip(from as int));
    if from >= plain.len() {
        return None;
    }
    let mut value: usize = 0;
    let mut i: usize = from;
    while i < plain.len()
        invariant
            from <= i <= plain@.len(),
            digits == plain@.skip(from as int),
            digits.len() > 0,
            digits == number_digits(without_underscores(text.spec_bytes())),
            forall|k: int| 0 <= k < i - from ==> 48 <= #[trigger] digits[k] <= 57,
            value == decimal(digits.take(i - from)),
        decreases plain@.len() - i,
    {
        let byte: u8 = plain[i];
        assert(digits[i - from] == byte);
        if byte < 48 || byte > 57 {
            return None;
        }
        assert(digits.take(i - from + 1).drop_last() =~= digits.take(i - from));
        assert(digits.take(i - from + 1).last() == byte);
        let next: Option<usize> = match value.checked_mul(10) {
            Some(tens) => tens.checked_add((byte - 48) as usize),
            None => None,
        };
        match next {
            Some(sum) => {
                value = sum;
            },
            None => {
                proof {
                    if all_digits(digits) {
                        lemma_decimal_grows(digits, i - from + 1);
                    }
                }
                return None;
            },
        }
        i += 1;
    }
    assert(digits.take(i - from) =~= digits);
    Some(value)
}

/// The count that one of two texts stands for and that is not zero, the first of
/// them that has one; the default where none does.
pub open spec fn setting_of(first: Option<Seq<u8>>, second: Option<Seq<u8>>, default_cap: usize) -> usize {
    if first is Some && count_of(first->0) is Some && count_of(first->0)->0 > 0 {
        count_of(first->0)->0
    } else if second is Some && count_of(second->0) is Some && count_of(second->0)->0 > 0 {
        count_of(second->0)->0
    } else {
        default_cap
    }
}

/// The bytes of a text.
pub open spec fn text_bytes(text: Option<&str>) -> Option<Seq<u8>> {
    match text {
        Some(text) => Some(text.spec_bytes()),
        None => None,
    }
}

/// The highest level that nodes may get, by two settings.
pub fn max_level_cap_from_env(cap: Option<&str>, level: Option<&str>, default_cap: usize) -> (r: usize)
    ensures
        r == setting_of(text_bytes(cap), text_bytes(level), default_cap),
{
    if let Some(text) = cap {
        if let Some(value) = parse_count(text) {
            if value > 0 {
                return value;
            }
        }
    }
    if let Some(text) = level {
        if let Some(value) = parse_count(text) {
            if value > 0 {
                return value;
            }
        }
    }
    default_cap
}

} // verus!
