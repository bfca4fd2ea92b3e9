//! Late interaction: how well the vectors of a query match those of a document.

use vstd::prelude::*;
use crate::arith;
use crate::config::{IndexError, Reason};
use crate::engine::index::MultiVectorIndex;
use crate::engine::state::DocumentRecord;
use crate::engine::train;
use crate::error::StorageError;
use crate::score;
use crate::score::Score;
use crate::storage;
use crate::storage::{CompressedVectorStore, FlatVectors, ObjectLocation};

verus! {

/// The bit pattern of `-0.0`, to which sums add.
pub const NEGATIVE_ZERO: Score = 0x8000_0000;

/// The arithmetic of a query: `normalize` gives a vector of length one, `dot` the
/// product of two vectors, `greater` the greater of two numbers, `add` their sum.
pub struct Kernels<
    'a,
    N: Fn(&[Score]) -> Vec<Score>,
    D: Fn(&[Score], &[Score]) -> Score,
    G: Fn(Score, Score) -> Score,
    A: Fn(Score, Score) -> Score,
> {
    pub normalize: &'a N,
    pub dot: &'a D,
    pub greater: &'a G,
    pub add: &'a A,
}

impl<
    'a,
    N: Fn(&[Score]) -> Vec<Score>,
    D: Fn(&[Score], &[Score]) -> Score,
    G: Fn(Score, Score) -> Score,
    A: Fn(Score, Score) -> Score,
> Kernels<'a, N, D, G, A> {
    /// Whether each is a function.
    pub open spec fn ok(&self) -> bool {
        &&& train::is_normalizing(*self.normalize)
        &&& arith::is_measure(*self.dot)
        &&& arith::is_binary(*self.greater)
        &&& arith::is_binary(*self.add)
    }
}

/// The greatest of numbers, from negative infinity.
pub open spec fn greatest<G: Fn(Score, Score) -> Score>(greater: G, values: Seq<Score>) -> Score
    decreases values.len(),
{
    if values.len() == 0 {
        score::negated(score::INFINITY)
    } else {
        arith::binary(greater, greatest(greater, values.drop_last()), values.last())
    }
}

/// The sum of numbers.
pub open spec fn total<A: Fn(Score, Score) -> Score>(add: A, values: Seq<Score>) -> Score
    decreases values.len(),
{
    if values.len() == 0 {
        NEGATIVE_ZERO
    } else {
        arith::binary(add, total(add, values.drop_last()), values.last())
    }
}

/// The products of a vector with the rows of a matrix.
pub open spec fn products<D: Fn(&[Score], &[Score]) -> Score>(
    dot: D,
    vector: Seq<Score>,
    rows: Seq<Seq<Score>>,
) -> Seq<Score> {
    Seq::new(rows.len(), |j: int| arith::measure(dot, vector, rows[j]))
}

/// The sum over the vectors of a query of the greatest product with a vector of
/// the document.
pub open spec fn interaction<
    D: Fn(&[Score], &[Score]) -> Score,
    G: Fn(Score, Score) -> Score,
    A: Fn(Score, Score) -> Score,
>(dot: D, greater: G, add: A, query: Seq<Seq<Score>>, document: Seq<Seq<Score>>) -> Score {
    total(add, Seq::new(query.len(), |i: int| greatest(greater, products(dot, query[i], document))))
}

/// The rows of a matrix that is written row after row.
pub open spec fn unflattened(values: Seq<Score>, dimension: int) -> Seq<Seq<Score>> {
    Seq::new(
        (values.len() as int / dimension) as nat,
        |i: int| values.subrange(i * dimension, i * dimension + dimension),
    )
}

/// The rows of a matrix, row after row.
pub open spec fn flattened(rows: Seq<Seq<Score>>) -> Seq<Score>
    decreases rows.len(),
{
    if rows.len() == 0 {
        Seq::empty()
    } else {
        flattened(rows.drop_last()) + rows.last()
    }
}

/// Writing rows of one length one after another loses none of them.
pub proof fn law_unflattened(rows: Seq<Seq<Score>>, dimension: nat)
    requires
        dimension > 0,
        forall|i: int| 0 <= i < rows.len() ==> (#[trigger] rows[i]).len() == dimension,
    ensures
        flattened(rows).len() == rows.len() * dimension,
        unflattened(flattened(rows), dimension as int) == rows,
    decreases rows.len(),
{
    let d = dimension as int;
    if rows.len() == 0 {
        assert(0 * dimension == 0) by (nonlinear_arith);
        assert(0int / d == 0) by (nonlinear_arith)
            requires
                d > 0,
        ;
        assert(unflattened(flattened(rows), d) =~= rows);
    } else {
        let rest = rows.drop_last();
        assert forall|i: int| 0 <= i < rest.len() implies (#[trigger] rest[i]).len() == dimension by {
            assert(rows[i].len() == dimension);
        }
        law_unflattened(rest, dimension);
        let before = flattened(rest);
        let all = flattened(rows);
        let n = rows.len() as int;
        assert(rows[n - 1].len() == dimension);
        assert(n * d == (n - 1) * d + d) by (nonlinear_arith);
        vstd::arithmetic::div_mod::lemma_div_by_multiple(n, d);
        vstd::arithmetic::div_mod::lemma_div_by_multiple(n - 1, d);
        assert forall|i: int| 0 <= i < n implies #[trigger] unflattened(all, d)[i] == rows[i] by {
            assert(i * d >= 0) by (nonlinear_arith)
                requires
                    i >= 0,
                    d > 0,
            ;
            if i < n - 1 {
                assert(i * d + d <= (n - 1) * d) by (nonlinear_arith)
                    requires
                        i + 1 <= n - 1,
                        d > 0,
                ;
                assert(unflattened(before, d)[i] == rest[i]);
                assert(all.subrange(i * d, i * d + d) =~= before.subrange(i * d, i * d + d));
            } else {
                assert(all.subrange(i * d, i * d + d) =~= rows[i]);
            }
        }
        assert(unflattened(all, d) =~= rows);
    }
}

/// The greatest product of a vector with the rows of a flat matrix.
fn greatest_product<D: Fn(&[Score], &[Score]) -> Score, G: Fn(Score, Score) -> Score>(
    vector: &[Score],
    document: &[Score],
    dimension: usize,
    dot: &D,
    greater: &G,
) -> (r: Score)
    requires
        dimension > 0,
        arith::is_measure(*dot),
        arith::is_binary(*greater),
    ensures
        r == greatest(*greater, products(*dot, vector@, unflattened(document@, dimension as int))),
{
    let ghost rows = unflattened(document@, dimension as int);
    let ghost values = products(*dot, vector@, rows);
    let length: usize = document.len();
    let count: usize = length / dimension;
    proof {
        vstd::arithmetic::div_mod::lemma_fundamental_div_mod(length as int, dimension as int);
        vstd::arithmetic::div_mod::lemma_mod_bound(length as int, dimension as int);
        assert(count * dimension <= length) by (nonlinear_arith)
            requires
                length == dimension * (length as int / dimension as int) + length as int % dimension as int,
                count == length as int / dimension as int,
                length as int % dimension as int >= 0,
        ;
    }
    let mut best: Score = score::negate(score::INFINITY);
    let mut i: usize = 0;
    assert(values.take(0) =~= Seq::<Score>::empty());
    while i < count
        invariant
            i <= count,
            dimension > 0,
            length == document@.len(),
            count == rows.len(),
            count * dimension <= length,
            rows == unflattened(document@, dimension as int),
            values == products(*dot, vector@, rows),
            arith::is_measure(*dot),
            arith::is_binary(*greater),
            best == greatest(*greater, values.take(i as int)),
        decreases count - i,
    {
        assert(i * dimension + dimension <= count * dimension && i * dimension >= 0) by (nonlinear_arith)
            requires
                i + 1 <= count,
        ;
        let from: usize = i * dimension;
        let row: &[Score] = vstd::slice::slice_subrange(document, from, from + dimension);
        assert(row@ == rows[i as int]);
        let value: Score = arith::apply_measure(dot, vector, row);
        assert(values.take(i + 1).drop_last() =~= values.take(i as int));
        assert(values.take(i + 1).last() == value);
        best = arith::apply_binary(greater, best, value);
        i += 1;
    }
    assert(values.take(i as int) =~= values);
    best
}

/// The late interaction of the vectors of a query with a flat document.
pub fn maxsim_flat<D: Fn(&[Score], &[Score]) -> Score, G: Fn(Score, Score) -> Score, A: Fn(Score, Score) -> Score>(
    query: &[Vec<Score>],
    document: &[Score],
    dimension: usize,
    dot: &D,
    greater: &G,
    add: &A,
) -> (r: Score)
    requires
        dimension > 0,
        arith::is_measure(*dot),
        arith::is_binary(*greater),
        arith::is_binary(*add),
    ensures
        r == interaction(
            *dot,
            *greater,
            *add,
            arith::rows(query@),
            unflattened(document@, dimension as int),
        ),
{
    let ghost rows = unflattened(document@, dimension as int);
    let ghost best = Seq::new(
        arith::rows(query@).len(),
        |i: int| greatest(*greater, products(*dot, arith::rows(query@)[i], rows)),
    );
    let mut sum: Score = NEGATIVE_ZERO;
    let mut i: usize = 0;
    assert(best.take(0) =~= Seq::<Score>::empty());
    while i < query.len()
        invariant
            i <= query@.len(),
            dimension > 0,
            arith::is_measure(*dot),
            arith::is_binary(*greater),
            arith::is_binary(*add),
            rows == unflattened(document@, dimension as int),
            best == Seq::new(
                arith::rows(query@).len(),
                |i: int| greatest(*greater, products(*dot, arith::rows(query@)[i], rows)),
            ),
            sum == total(*add, best.take(i as int)),
        decreases query@.len() - i,
    {
        let value: Score = greatest_product(query[i].as_slice(), document, dimension, dot, greater);
        assert(best.take(i + 1).drop_last() =~= best.take(i as int));
        assert(best.take(i + 1).last() == value);
        sum = arith::apply_binary(add, sum, value);
        i += 1;
    }
    assert(best.take(i as int) =~= best);
    sum
}

/// Every row of a matrix normalized.
pub open spec fn normalized_rows<N: Fn(&[Score]) -> Vec<Score>>(normalize: N, rows: Seq<Seq<Score>>) -> Seq<
    Seq<Score>,
> {
    rows.map_values(|v: Seq<Score>| train::normalized(normalize, v))
}

/// The rows of a matrix, row after row.
fn flatten(rows: &[Vec<Score>]) -> (r: Vec<Score>)
    ensures
        r@ == flattened(arith::rows(rows@)),
{
    let ghost view = arith::rows(rows@);
    let mut out: Vec<Score> = Vec::new();
    let mut i: usize = 0;
    assert(view.take(0) =~= Seq::<Seq<Score>>::empty());
    while i < rows.len()
        invariant
            i <= rows@.len(),
            view == arith::rows(rows@),
            out@ == flattened(view.take(i as int)),
        decreases rows@.len() - i,
    {
        assert(view.take(i + 1).drop_last() =~= view.take(i as int));
        assert(view.take(i + 1).last() == rows@[i as int]@);
        out.extend_from_slice(rows[i].as_slice());
        assert(out@ =~= flattened(view.take(i + 1)));
        i += 1;
    }
    assert(view.take(i as int) =~= view);
    out
}

/// The late interaction of two sets of vectors, zero where one of them is empty.
pub fn maxsim<
    N: Fn(&[Score]) -> Vec<Score>,
    D: Fn(&[Score], &[Score]) -> Score,
    G: Fn(Score, Score) -> Score,
    A: Fn(Score, Score) -> Score,
>(query: &[Vec<Score>], document: &[Vec<Score>], dimension: usize, kernels: &Kernels<'_, N, D, G, A>) -> (r: Score)
    requires
        kernels.ok(),
        dimension > 0,
        forall|i: int| 0 <= i < document@.len() ==> (#[trigger] document@[i])@.len() == dimension,
    ensures
        r == if query@.len() == 0 || document@.len() == 0 {
            0
        } else {
            interaction(
                *kernels.dot,
                *kernels.greater,
                *kernels.add,
                normalized_rows(*kernels.normalize, arith::rows(query@)),
                normalized_rows(*kernels.normalize, arith::rows(document@)),
            )
        },
{
    if query.len() == 0 || document.len() == 0 {
        return 0;
    }
    let unit_query: Vec<Vec<Score>> = train::normalize_all(kernels.normalize, query);
    let unit_document: Vec<Vec<Score>> = train::normalize_all(kernels.normalize, document);
    let flat: Vec<Score> = flatten(unit_document.as_slice());
    proof {
        let rows = arith::rows(unit_document@);
        assert forall|i: int| 0 <= i < rows.len() implies (#[trigger] rows[i]).len() == dimension by {
            assert(unit_document@[i]@.len() == document@[i]@.len());
        }
        law_unflattened(rows, dimension as nat);
        assert(rows =~= normalized_rows(*kernels.normalize, arith::rows(document@)));
        assert(arith::rows(unit_query@) =~= normalized_rows(*kernels.normalize, arith::rows(query@)));
    }
    maxsim_flat(unit_query.as_slice(), flat.as_slice(), dimension, kernels.dot, kernels.greater, kernels.add)
}

/// The products of the vectors of a query with centroids.
pub open spec fn centroid_products<D: Fn(&[Score], &[Score]) -> Score>(
    dot: D,
    query: Seq<Seq<Score>>,
    codebook: Seq<Seq<Score>>,
) -> Seq<Seq<Score>> {
    query.map_values(|v: Seq<Score>| products(dot, v, codebook))
}

/// The sum over rows of products of the greatest among a document's centroids.
pub open spec fn centroid_score<G: Fn(Score, Score) -> Score, A: Fn(Score, Score) -> Score>(
    greater: G,
    add: A,
    table: Seq<Seq<Score>>,
    centroids: Seq<u32>,
) -> Score {
    total(add, table.map_values(|row: Seq<Score>| greatest(greater, entries(row, centroids))))
}

/// The numbers of a row at given places.
pub open spec fn entries(row: Seq<Score>, places: Seq<u32>) -> Seq<Score> {
    places.map_values(|c: u32| row[c as int])
}

/// The products of the vectors of a query with centroids.
pub(crate) fn multiply_centroids<D: Fn(&[Score], &[Score]) -> Score>(dot: &D, query: &[Vec<Score>], codebook: &[Vec<Score>]) -> (r: Vec<
    Vec<Score>,
>)
    requires
        arith::is_measure(*dot),
    ensures
        arith::rows(r@) == centroid_products(*dot, arith::rows(query@), arith::rows(codebook@)),
        r@.len() == query@.len(),
        forall|q: int| 0 <= q < r@.len() ==> (#[trigger] r@[q])@.len() == codebook@.len(),
{
    let ghost centers = arith::rows(codebook@);
    let mut out: Vec<Vec<Score>> = Vec::with_capacity(query.len());
    let mut q: usize = 0;
    while q < query.len()
        invariant
            arith::is_measure(*dot),
            centers == arith::rows(codebook@),
            q <= query@.len(),
            out@.len() == q,
            forall|k: int| 0 <= k < q ==> (#[trigger] out@[k])@ == products(*dot, query@[k]@, centers),
        decreases query@.len() - q,
    {
        let ghost goal = products(*dot, query@[q as int]@, centers);
        let mut row: Vec<Score> = Vec::with_capacity(codebook.len());
        let mut c: usize = 0;
        while c < codebook.len()
            invariant
                arith::is_measure(*dot),
                centers == arith::rows(codebook@),
                q < query@.len(),
                c <= codebook@.len(),
                goal == products(*dot, query@[q as int]@, centers),
                row@ == goal.take(c as int),
            decreases codebook@.len() - c,
        {
            row.push(arith::apply_measure(dot, query[q].as_slice(), codebook[c].as_slice()));
            c += 1;
            assert(row@ =~= goal.take(c as int));
        }
        assert(row@ =~= goal);
        out.push(row);
        q += 1;
    }
    assert(arith::rows(out@) =~= centroid_products(*dot, arith::rows(query@), centers));
    out
}

/// The sum over rows of products of the greatest among a document's centroids.
pub(crate) fn score_centroids<G: Fn(Score, Score) -> Score, A: Fn(Score, Score) -> Score>(
    greater: &G,
    add: &A,
    table: &[Vec<Score>],
    centroids: &[u32],
) -> (r: Score)
    requires
        arith::is_binary(*greater),
        arith::is_binary(*add),
        forall|q: int, k: int|
            0 <= q < table@.len() && 0 <= k < centroids@.len() ==> (#[trigger] centroids@[k]) < (#[trigger] table@[q])@.len(),
    ensures
        r == centroid_score(*greater, *add, arith::rows(table@), centroids@),
{
    let ghost rows = arith::rows(table@);
    let ghost best = rows.map_values(|row: Seq<Score>| greatest(*greater, entries(row, centroids@)));
    let mut sum: Score = NEGATIVE_ZERO;
    let mut q: usize = 0;
    assert(best.take(0) =~= Seq::<Score>::empty());
    while q < table.len()
        invariant
            arith::is_binary(*greater),
            arith::is_binary(*add),
            forall|q: int, k: int|
                0 <= q < table@.len() && 0 <= k < centroids@.len() ==> (#[trigger] centroids@[k]) < (#[trigger] table@[q])@.len(),
            rows == arith::rows(table@),
            best == rows.map_values(|row: Seq<Score>| greatest(*greater, entries(row, centroids@))),
            q <= table@.len(),
            sum == total(*add, best.take(q as int)),
        decreases table@.len() - q,
    {
        let row: &Vec<Score> = &table[q];
        let ghost values = entries(row@, centroids@);
        let mut value: Score = score::negate(score::INFINITY);
        let mut k: usize = 0;
        assert(values.take(0) =~= Seq::<Score>::empty());
        while k < centroids.len()
            invariant
                arith::is_binary(*greater),
                forall|j: int| 0 <= j < centroids@.len() ==> (#[trigger] centroids@[j]) < row@.len(),
                values == entries(row@, centroids@),
                k <= centroids@.len(),
                value == greatest(*greater, values.take(k as int)),
            decreases centroids@.len() - k,
        {
            let c: usize = centroids[k] as usize;
            assert(values.take(k + 1).drop_last() =~= values.take(k as int));
            assert(values.take(k + 1).last() == row@[c as int]);
            value = arith::apply_binary(greater, value, row[c]);
            k += 1;
        }
        assert(values.take(k as int) =~= values);
        assert(best[q as int] == value);
        assert(best.take(q + 1).drop_last() =~= best.take(q as int));
        assert(best.take(q + 1).last() == value);
        sum = arith::apply_binary(add, sum, value);
        q += 1;
    }
    assert(best.take(q as int) =~= best);
    sum
}

/// The score of the document that a record holds, or why it holds none.
pub open spec fn stored_score<
    D: Fn(&[Score], &[Score]) -> Score,
    G: Fn(Score, Score) -> Score,
    A: Fn(Score, Score) -> Score,
>(
    index: MultiVectorIndex,
    dot: D,
    greater: G,
    add: A,
    query: Seq<Seq<Score>>,
    objects: Seq<u8>,
    location: ObjectLocation,
) -> Result<Score, StorageError> {
    let codebook = index.state@.codebook;
    let residuals = index.state@.residual_codebook;
    let bytes = storage::record(objects, location);
    match storage::record_error(objects.len(), location) {
        Some(e) => Err(e),
        None => match storage::decode_error(bytes, codebook, residuals.len()) {
            Some(e) => Err(e),
            None => Ok(
                interaction(
                    dot,
                    greater,
                    add,
                    query,
                    unflattened(storage::decoded(add, bytes, codebook, residuals), storage::le32_at(bytes, 4)),
                ),
            ),
        },
    }
}

impl MultiVectorIndex {
    /// The score of the document that a record holds.
    pub(crate) fn score_record<
        D: Fn(&[Score], &[Score]) -> Score,
        G: Fn(Score, Score) -> Score,
        A: Fn(Score, Score) -> Score,
    >(&self, query: &[Vec<Score>], objects: &[u8], location: ObjectLocation, dot: &D, greater: &G, add: &A) -> (r: Result<
        Score,
        StorageError,
    >)
        requires
            arith::is_measure(*dot),
            arith::is_binary(*greater),
            arith::is_binary(*add),
        ensures
            r == stored_score(*self, *dot, *greater, *add, arith::rows(query@), objects@, location),
    {
        let document: FlatVectors = match CompressedVectorStore::decode(
            objects,
            location,
            self.state.codebook.as_slice(),
            self.state.residual_codebook.as_slice(),
            add,
        ) {
            Ok(document) => document,
            Err(e) => {
                return Err(e);
            },
        };
        Ok(maxsim_flat(query, document.values.as_slice(), document.dimension, dot, greater, add))
    }

    /// The score of a document that the caller provides.
    pub fn score_uncompressed<
        N: Fn(&[Score]) -> Vec<Score>,
        D: Fn(&[Score], &[Score]) -> Score,
        G: Fn(Score, Score) -> Score,
        A: Fn(Score, Score) -> Score,
    >(&self, query: &[Vec<Score>], document: &[Vec<Score>], kernels: &Kernels<'_, N, D, G, A>) -> (r: Result<
        Score,
        IndexError,
    >)
        requires
            self.ok(),
            kernels.ok(),
        ensures
            r == if self.takes(arith::rows(query@)) && self.takes(arith::rows(document@)) {
                Ok::<Score, IndexError>(
                    interaction(
                        *kernels.dot,
                        *kernels.greater,
                        *kernels.add,
                        normalized_rows(*kernels.normalize, arith::rows(query@)),
                        normalized_rows(*kernels.normalize, arith::rows(document@)),
                    ),
                )
            } else {
                Err::<Score, IndexError>(IndexError::Invalid(Reason::Vectors(self.config.dimension)))
            },
    {
        if let Err(e) = self.validate(query) {
            return Err(e);
        }
        if let Err(e) = self.validate(document) {
            return Err(e);
        }
        proof {
            assert forall|i: int| 0 <= i < document@.len() implies (#[trigger] document@[i])@.len()
                == self.config.dimension by {
                assert(arith::rows(document@)[i].len() == self.config.dimension);
            }
        }
        Ok(maxsim(query, document, self.config.dimension, kernels))
    }

    /// The score of a document as the segment holds it.
    pub fn score_compressed<
        N: Fn(&[Score]) -> Vec<Score>,
        D: Fn(&[Score], &[Score]) -> Score,
        G: Fn(Score, Score) -> Score,
        A: Fn(Score, Score) -> Score,
    >(&self, query: &[Vec<Score>], id: &str, objects: &[u8], kernels: &Kernels<'_, N, D, G, A>) -> (r: Result<
        Score,
        IndexError,
    >)
        requires
            self.ok(),
            kernels.ok(),
        ensures
            r == if !self.takes(arith::rows(query@)) {
                Err::<Score, IndexError>(IndexError::Invalid(Reason::Vectors(self.config.dimension)))
            } else if !self.state@.documents.dom().contains(id@) {
                Err::<Score, IndexError>(IndexError::Invalid(Reason::UnknownDocument))
            } else if objects@.len() == 0 {
                Err::<Score, IndexError>(IndexError::Io(StorageError::EmptyVectorSegment))
            } else {
                match stored_score(
                    *self,
                    *kernels.dot,
                    *kernels.greater,
                    *kernels.add,
                    normalized_rows(*kernels.normalize, arith::rows(query@)),
                    objects@,
                    self.state@.documents[id@].location,
                ) {
                    Ok(score) => Ok::<Score, IndexError>(score),
                    Err(e) => Err::<Score, IndexError>(IndexError::Io(e)),
                }
            },
    {
        if let Err(e) = self.validate(query) {
            return Err(e);
        }
        let unit: Vec<Vec<Score>> = train::normalize_all(kernels.normalize, query);
        assert(arith::rows(unit@) =~= normalized_rows(*kernels.normalize, arith::rows(query@)));
        let record: &DocumentRecord = match self.state.documents.get(id) {
            Some(record) => record,
            None => {
                return Err(IndexError::Invalid(Reason::UnknownDocument));
            },
        };
        if let Err(e) = CompressedVectorStore::map(objects.len() as u64) {
            return Err(IndexError::Io(e));
        }
        match self.score_record(unit.as_slice(), objects, record.location, kernels.dot, kernels.greater, kernels.add) {
            Ok(score) => Ok(score),
            Err(e) => Err(IndexError::Io(e)),
        }
    }
}

} // verus!
