//! What late interaction adds up: for each vector of a query the greatest product with a
//! vector of a document.

use vstd::prelude::*;
use crate::arith;
use crate::engine::index::MultiVectorIndex;
use crate::engine::late;
use crate::error::StorageError;
use crate::laws::select::gives_the_greater;
use crate::score;
use crate::score::Score;
use crate::storage;
use crate::storage::ObjectLocation;

verus! {

/// The greatest of numbers one after another, from negative infinity.
pub open spec fn greatest_of<G: Fn(Score, Score) -> Score>(greater: G, values: Seq<Score>) -> Score {
    values.fold_left(score::negated(score::INFINITY), |most: Score, value: Score| arith::binary(greater, most, value))
}

/// Numbers added up one after another, from the zero that changes no number.
pub open spec fn sum_of<A: Fn(Score, Score) -> Score>(add: A, values: Seq<Score>) -> Score {
    values.fold_left(0x8000_0000, |s: Score, value: Score| arith::binary(add, s, value))
}

proof fn lemma_greatest<G: Fn(Score, Score) -> Score>(greater: G, values: Seq<Score>)
    ensures
        late::greatest(greater, values) == greatest_of(greater, values),
    decreases values.len(),
{
    if values.len() > 0 {
        lemma_greatest(greater, values.drop_last());
    }
}

proof fn lemma_total<A: Fn(Score, Score) -> Score>(add: A, values: Seq<Score>)
    ensures
        late::total(add, values) == sum_of(add, values),
    decreases values.len(),
{
    if values.len() > 0 {
        lemma_total(add, values.drop_last());
    }
}

/// The greatest of numbers is none less than any of them, and is one of them.
pub proof fn law_greatest_is_one_of_all<G: Fn(Score, Score) -> Score>(greater: G, values: Seq<Score>)
    requires
        gives_the_greater(greater),
        values.len() > 0,
        forall|i: int| 0 <= i < values.len() ==> !score::nan(#[trigger] values[i]),
    ensures
        forall|i: int| 0 <= i < values.len() ==> !score::less(late::greatest(greater, values), #[trigger] values[i]),
        values.contains(late::greatest(greater, values)),
    decreases values.len(),
{
    let rest = values.drop_last();
    let before = late::greatest(greater, rest);
    let found = late::greatest(greater, values);
    let last = values[values.len() - 1];
    assert(last == values.last());
    assert(found == arith::binary(greater, before, last));
    assert(!score::nan(last));
    if rest.len() > 0 {
        assert forall|i: int| 0 <= i < rest.len() implies !score::nan(#[trigger] rest[i]) by {
            assert(rest[i] == values[i]);
        }
        law_greatest_is_one_of_all(greater, rest);
        let k = choose|k: int| 0 <= k < rest.len() && rest[k] == before;
        assert(values[k] == before);
        assert(!score::nan(before));
        assert forall|i: int| 0 <= i < values.len() implies !score::less(found, #[trigger] values[i]) by {
            if i < rest.len() {
                assert(rest[i] == values[i]);
            }
        }
    } else {
        assert(before == score::negated(score::INFINITY));
    }
    assert(values.contains(found)) by {
        if found == last {
            assert(values[values.len() - 1] == found);
        }
    }
}

/// The late interaction of a query and a document is the sum, over all vectors of the
/// query, of the greatest product with any vector of the document.
pub proof fn law_interaction_sums_the_greatest_products<
    D: Fn(&[Score], &[Score]) -> Score,
    G: Fn(Score, Score) -> Score,
    A: Fn(Score, Score) -> Score,
>(dot: D, greater: G, add: A, query: Seq<Seq<Score>>, document: Seq<Seq<Score>>)
    ensures
        late::interaction(dot, greater, add, query, document) == sum_of(
            add,
            query.map_values(
                |q: Seq<Score>| greatest_of(greater, document.map_values(|d: Seq<Score>| arith::measure(dot, q, d))),
            ),
        ),
{
    let parts = Seq::new(
        query.len(),
        |i: int| late::greatest(greater, late::products(dot, query[i], document)),
    );
    let goal = query.map_values(
        |q: Seq<Score>| greatest_of(greater, document.map_values(|d: Seq<Score>| arith::measure(dot, q, d))),
    );
    assert forall|i: int| 0 <= i < query.len() implies parts[i] == goal[i] by {
        lemma_greatest(greater, late::products(dot, query[i], document));
        assert(late::products(dot, query[i], document) =~= document.map_values(
            |d: Seq<Score>| arith::measure(dot, query[i], d),
        ));
    }
    assert(parts =~= goal);
    lemma_total(add, parts);
}

/// What the centroids of a document say of it is the sum, over all vectors of the query,
/// of the greatest product with any of them.
pub open spec fn centroid_interaction<
    D: Fn(&[Score], &[Score]) -> Score,
    G: Fn(Score, Score) -> Score,
    A: Fn(Score, Score) -> Score,
>(dot: D, greater: G, add: A, query: Seq<Seq<Score>>, codebook: Seq<Seq<Score>>, centroids: Seq<u32>) -> Score {
    sum_of(
        add,
        query.map_values(
            |q: Seq<Score>|
                greatest_of(greater, centroids.map_values(|c: u32| arith::measure(dot, q, codebook[c as int]))),
        ),
    )
}

/// The score of a document by its centroids sums the greatest products.
pub proof fn law_centroid_score_sums_the_greatest_products<
    D: Fn(&[Score], &[Score]) -> Score,
    G: Fn(Score, Score) -> Score,
    A: Fn(Score, Score) -> Score,
>(dot: D, greater: G, add: A, query: Seq<Seq<Score>>, codebook: Seq<Seq<Score>>, centroids: Seq<u32>)
    requires
        forall|k: int| 0 <= k < centroids.len() ==> (#[trigger] centroids[k]) < codebook.len(),
    ensures
        late::centroid_score(greater, add, late::centroid_products(dot, query, codebook), centroids)
            == centroid_interaction(dot, greater, add, query, codebook, centroids),
{
    let table = late::centroid_products(dot, query, codebook);
    let parts = table.map_values(|row: Seq<Score>| late::greatest(greater, late::entries(row, centroids)));
    let goal = query.map_values(
        |q: Seq<Score>|
            greatest_of(greater, centroids.map_values(|c: u32| arith::measure(dot, q, codebook[c as int]))),
    );
    assert forall|i: int| 0 <= i < query.len() implies parts[i] == goal[i] by {
        let row = late::products(dot, query[i], codebook);
        assert(table[i] == row);
        lemma_greatest(greater, late::entries(row, centroids));
        assert(late::entries(row, centroids) =~= centroids.map_values(
            |c: u32| arith::measure(dot, query[i], codebook[c as int]),
        ));
    }
    assert(parts =~= goal);
    lemma_total(add, parts);
}

/// The rows of the document that a record holds: each number is the sum of its row's
/// centroid and the level that its code names.
pub open spec fn rows_of<A: Fn(Score, Score) -> Score>(
    add: A,
    bytes: Seq<u8>,
    codebook: Seq<Seq<Score>>,
    levels: Seq<Score>,
) -> Seq<Seq<Score>> {
    let dimension = storage::le32_at(bytes, 4);
    Seq::new(
        storage::le32_at(bytes, 0) as nat,
        |row: int|
            Seq::new(
                dimension as nat,
                |d: int|
                    arith::binary(
                        add,
                        codebook[storage::record_ids(bytes)[row] as int][d],
                        levels[storage::record_codes(bytes)[row * dimension + d] as int],
                    ),
            ),
    )
}

/// The score of a stored document is the interaction of the query with all of its rows.
pub proof fn law_stored_scores_are_of_all_rows<
    D: Fn(&[Score], &[Score]) -> Score,
    G: Fn(Score, Score) -> Score,
    A: Fn(Score, Score) -> Score,
>(
    index: MultiVectorIndex,
    dot: D,
    greater: G,
    add: A,
    query: Seq<Seq<Score>>,
    objects: Seq<u8>,
    location: ObjectLocation,
)
    requires
        storage::record_error(objects.len(), location) is None,
        storage::decode_error(
            storage::record(objects, location),
            index.state@.codebook,
            index.state@.residual_codebook.len(),
        ) is None,
    ensures
        late::stored_score(index, dot, greater, add, query, objects, location) == Ok::<Score, StorageError>(
            late::interaction(
                dot,
                greater,
                add,
                query,
                rows_of(
                    add,
                    objects.subrange(location.offset as int, location.offset + location.length),
                    index.state@.codebook,
                    index.state@.residual_codebook,
                ),
            ),
        ),
{
    let codebook = index.state@.codebook;
    let levels = index.state@.residual_codebook;
    let bytes = storage::record(objects, location);
    let n = storage::le32_at(bytes, 0);
    let dimension = storage::le32_at(bytes, 4);
    let values = storage::decoded(add, bytes, codebook, levels);
    let rows = rows_of(add, bytes, codebook, levels);
    let found = late::unflattened(values, dimension);
    assert(n > 0 && dimension > 0);
    vstd::arithmetic::div_mod::lemma_div_by_multiple(n, dimension);
    assert(n * dimension >= 0) by (nonlinear_arith)
        requires
            n > 0,
            dimension > 0,
    ;
    assert(found.len() == n);
    assert forall|row: int| 0 <= row < n implies #[trigger] found[row] == rows[row] by {
        assert(row * dimension + dimension <= n * dimension && row * dimension >= 0) by (nonlinear_arith)
            requires
                0 <= row < n,
                dimension > 0,
        ;
        assert forall|d: int| 0 <= d < dimension implies #[trigger] found[row][d] == rows[row][d] by {
            let k = row * dimension + d;
            vstd::arithmetic::div_mod::lemma_fundamental_div_mod_converse(k, dimension, row, d);
            assert(found[row][d] == values[k]);
        }
        assert(found[row] =~= rows[row]);
    }
    assert(found =~= rows);
}

} // verus!
