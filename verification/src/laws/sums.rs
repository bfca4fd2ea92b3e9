//! What rankings of summed contributions hold: fused lists, and searches by shared
//! features.

use vstd::prelude::*;
use crate::arith;
use crate::order;
use crate::rerank;
use crate::score;
use crate::score::Score;
use crate::sparse;
use crate::sparse::{Bm25Term, SparseIndex};
use crate::tally;

verus! {

/// Whether a contribution is of an id.
pub open spec fn is_of(id: u64) -> spec_fn((u64, Score)) -> bool {
    |part: (u64, Score)| part.0 == id
}

/// Whether an entry is of a document.
pub open spec fn is_in(doc: u32) -> spec_fn((u32, Score)) -> bool {
    |entry: (u32, Score)| entry.0 == doc
}

/// The contributions of an id, in their order.
pub open spec fn parts_of(parts: Seq<(u64, Score)>, id: u64) -> Seq<Score> {
    parts.filter(is_of(id)).map_values(|part: (u64, Score)| part.1)
}

/// Numbers added up one after another, from zero.
pub open spec fn sum<A: Fn(Score, Score) -> Score>(add: A, values: Seq<Score>) -> Score {
    values.fold_left(0, |s: Score, value: Score| arith::binary(add, s, value))
}

/// Whether an item comes before another one: it has the greater score, or the same and
/// the smaller id.
pub open spec fn beats(a: (u64, Score), b: (u64, Score)) -> bool {
    score::total_key(b.1) < score::total_key(a.1) || (score::total_key(b.1) == score::total_key(a.1) && a.0 < b.0)
}

/// Whether a list holds the best sums of contributions: ids that contribute, each with
/// the sum of all its contributions, the best first, and all of them or as many as
/// asked for, and then none that is left out is better.
pub open spec fn are_best_sums<A: Fn(Score, Score) -> Score>(
    add: A,
    parts: Seq<(u64, Score)>,
    limit: int,
    out: Seq<(u64, Score)>,
) -> bool {
    &&& out.len() <= limit
    &&& forall|i: int|
        0 <= i < out.len() ==> parts_of(parts, (#[trigger] out[i]).0).len() > 0 && out[i].1 == sum(
            add,
            parts_of(parts, out[i].0),
        )
    &&& forall|i: int, j: int| 0 <= i < j < out.len() ==> beats(#[trigger] out[i], #[trigger] out[j])
    &&& forall|id: u64|
        (#[trigger] parts_of(parts, id)).len() > 0 ==> {
            ||| exists|i: int| 0 <= i < out.len() && (#[trigger] out[i]).0 == id
            ||| out.len() == limit && forall|i: int|
                0 <= i < out.len() ==> beats(#[trigger] out[i], (id, sum(add, parts_of(parts, id))))
        }
}

proof fn lemma_sum_for<A: Fn(Score, Score) -> Score>(add: A, parts: Seq<(u64, Score)>, id: u64)
    ensures
        tally::sum_for(add, parts, id) == sum(add, parts_of(parts, id)),
        tally::sums(parts, id) <==> parts_of(parts, id).len() > 0,
    decreases parts.len(),
{
    reveal(Seq::filter);
    let own = is_of(id);
    if parts.len() > 0 {
        let rest = parts.drop_last();
        lemma_sum_for(add, rest, id);
        if parts.last().0 == id {
            assert(parts_of(parts, id).drop_last() =~= parts_of(rest, id));
            assert(parts[parts.len() - 1].0 == id);
        } else {
            assert(parts.filter(own) == rest.filter(own));
            if tally::sums(parts, id) {
                let i = choose|i: int| 0 <= i < parts.len() && (#[trigger] parts[i]).0 == id;
                assert(rest[i].0 == id);
            }
            if tally::sums(rest, id) {
                let i = choose|i: int| 0 <= i < rest.len() && (#[trigger] rest[i]).0 == id;
                assert(parts[i].0 == id);
            }
        }
    }
}

/// The ranking of a tally holds the best sums.
pub proof fn law_tallies_rank_sums<A: Fn(Score, Score) -> Score>(add: A, parts: Seq<(u64, Score)>, limit: int)
    requires
        limit >= 0,
    ensures
        are_best_sums(add, parts, limit, tally::top_tallied(add, parts, limit)),
{
    let items = tally::tallied(add, parts);
    let all = order::ranking(items);
    let out = tally::top_tallied(add, parts, limit);
    tally::law_tally(add, parts);
    order::law_ranking(items);
    assert(order::ids_differ(items));
    order::law_ranking_keeps_ids_apart(items);
    assert forall|i: int| 0 <= i < all.len() implies parts_of(parts, (#[trigger] all[i]).0).len() > 0 && all[i].1
        == sum(add, parts_of(parts, all[i].0)) by {
        assert(all.contains(all[i]));
        let k = choose|k: int| 0 <= k < items.len() && items[k] == all[i];
        assert(items[k].1 == tally::sum_for(add, parts, items[k].0));
        assert(tally::sums(items, items[k].0));
        lemma_sum_for(add, parts, items[k].0);
    }
    assert forall|i: int, j: int| 0 <= i < j < all.len() implies beats(#[trigger] all[i], #[trigger] all[j]) by {
        assert(order::ranks_before(all[i], all[j]));
        assert(all[i].0 != all[j].0);
    }
    assert forall|id: u64| (#[trigger] parts_of(parts, id)).len() > 0 implies {
        ||| exists|i: int| 0 <= i < out.len() && (#[trigger] out[i]).0 == id
        ||| out.len() == limit && forall|i: int|
            0 <= i < out.len() ==> beats(#[trigger] out[i], (id, sum(add, parts_of(parts, id))))
    } by {
        lemma_sum_for(add, parts, id);
        assert(tally::sums(items, id));
        let k = choose|k: int| 0 <= k < items.len() && (#[trigger] items[k]).0 == id;
        assert(items.contains(items[k]));
        assert(all.contains(items[k]));
        let i = choose|i: int| 0 <= i < all.len() && all[i] == items[k];
        if i < out.len() {
            assert(out[i].0 == id);
        } else {
            assert(all[i] == (id, sum(add, parts_of(parts, id))));
        }
    }
}

/// Rank fusion adds up, for each document, what its rank in each list contributes, with
/// ranks from zero, over all lists in their order.
pub proof fn law_fusion_adds_up_ranks<C: Fn(Score, usize) -> Score, A: Fn(Score, Score) -> Score>(
    contribution: C,
    add: A,
    k: Score,
    sets: Seq<Seq<(u64, Score)>>,
    top_k: int,
)
    requires
        top_k >= 0,
    ensures
        are_best_sums(
            add,
            sets.flat_map(
                |list: Seq<(u64, Score)>|
                    Seq::new(
                        list.len(),
                        |rank: int| (list[rank].0, arith::scaled(contribution, k, rank as usize)),
                    ),
            ),
            top_k,
            tally::top_tallied(add, rerank::all_rank_parts(contribution, k, sets), top_k),
        ),
{
    let f = |list: Seq<(u64, Score)>|
        Seq::new(list.len(), |rank: int| (list[rank].0, arith::scaled(contribution, k, rank as usize)));
    lemma_rank_parts(contribution, k, sets, f);
    law_tallies_rank_sums(add, rerank::all_rank_parts(contribution, k, sets), top_k);
}

proof fn lemma_rank_parts<C: Fn(Score, usize) -> Score>(
    contribution: C,
    k: Score,
    sets: Seq<Seq<(u64, Score)>>,
    f: spec_fn(Seq<(u64, Score)>) -> Seq<(u64, Score)>,
)
    requires
        forall|list: Seq<(u64, Score)>| #[trigger]
            f(list) == Seq::new(list.len(), |rank: int| (list[rank].0, arith::scaled(contribution, k, rank as usize))),
    ensures
        rerank::all_rank_parts(contribution, k, sets) == sets.flat_map(f),
    decreases sets.len(),
{
    if sets.len() == 0 {
        assert(sets.map_values(f) =~= Seq::empty());
        assert(sets.flat_map(f) =~= Seq::empty());
    } else {
        lemma_rank_parts(contribution, k, sets.drop_last(), f);
        sets.drop_last().lemma_flat_map_push(f, sets.last());
        assert(sets.drop_last().push(sets.last()) =~= sets);
        assert(rerank::rank_parts(contribution, k, sets.last()) =~= f(sets.last()));
    }
}

/// Weighted fusion adds up, for each document, its score in each list times the weight
/// of the list, over all lists in their order.
pub proof fn law_fusion_adds_up_weighted_scores<M: Fn(Score, Score) -> Score, A: Fn(Score, Score) -> Score>(
    multiply: M,
    add: A,
    sets: Seq<(Seq<(u64, Score)>, Score)>,
    top_k: int,
)
    requires
        top_k >= 0,
    ensures
        are_best_sums(
            add,
            sets.flat_map(
                |set: (Seq<(u64, Score)>, Score)|
                    set.0.map_values(|item: (u64, Score)| (item.0, arith::binary(multiply, set.1, item.1))),
            ),
            top_k,
            tally::top_tallied(add, rerank::all_weighted_parts(multiply, sets), top_k),
        ),
{
    let f = |set: (Seq<(u64, Score)>, Score)|
        set.0.map_values(|item: (u64, Score)| (item.0, arith::binary(multiply, set.1, item.1)));
    lemma_weighted_parts(multiply, sets, f);
    law_tallies_rank_sums(add, rerank::all_weighted_parts(multiply, sets), top_k);
}

proof fn lemma_weighted_parts<M: Fn(Score, Score) -> Score>(
    multiply: M,
    sets: Seq<(Seq<(u64, Score)>, Score)>,
    f: spec_fn((Seq<(u64, Score)>, Score)) -> Seq<(u64, Score)>,
)
    requires
        forall|set: (Seq<(u64, Score)>, Score)| #[trigger]
            f(set) == set.0.map_values(|item: (u64, Score)| (item.0, arith::binary(multiply, set.1, item.1))),
    ensures
        rerank::all_weighted_parts(multiply, sets) == sets.flat_map(f),
    decreases sets.len(),
{
    if sets.len() == 0 {
        assert(sets.map_values(f) =~= Seq::empty());
        assert(sets.flat_map(f) =~= Seq::empty());
    } else {
        lemma_weighted_parts(multiply, sets.drop_last(), f);
        sets.drop_last().lemma_flat_map_push(f, sets.last());
        assert(sets.drop_last().push(sets.last()) =~= sets);
        assert(rerank::weighted_parts(multiply, sets.last().1, sets.last().0) =~= f(sets.last()));
    }
}

/// The documents that have a feature, with its value for each, in the order of the
/// index.
pub open spec fn with_feature(index: SparseIndex, feature: u32) -> Seq<(u32, Score)> {
    if feature < index.postings@.len() {
        index.postings@[feature as int].entries@
    } else {
        Seq::empty()
    }
}

/// The values that a document has of a feature.
pub open spec fn values_in(index: SparseIndex, doc: u32, feature: u32) -> Seq<Score> {
    with_feature(index, feature).filter(is_in(doc)).map_values(
        |entry: (u32, Score)| entry.1,
    )
}

/// A search by products adds up, for each document, the products of the query's values
/// and its own, over all features that they share.
pub proof fn law_dot_search_adds_up_products<M: Fn(Score, Score) -> Score, A: Fn(Score, Score) -> Score>(
    index: SparseIndex,
    multiply: M,
    add: A,
    query: Seq<(u32, Score)>,
    top_k: int,
)
    requires
        top_k >= 0,
    ensures
        are_best_sums(
            add,
            query.flat_map(
                |q: (u32, Score)|
                    with_feature(index, q.0).map_values(
                        |entry: (u32, Score)|
                            (index.local_to_id@[entry.0 as int], arith::binary(multiply, q.1, entry.1)),
                    ),
            ),
            top_k,
            tally::top_tallied(add, sparse::all_dot_parts(index, multiply, query), top_k),
        ),
{
    let f = |q: (u32, Score)|
        with_feature(index, q.0).map_values(
            |entry: (u32, Score)| (index.local_to_id@[entry.0 as int], arith::binary(multiply, q.1, entry.1)),
        );
    lemma_dot_parts(index, multiply, query, f);
    law_tallies_rank_sums(add, sparse::all_dot_parts(index, multiply, query), top_k);
}

proof fn lemma_dot_parts<M: Fn(Score, Score) -> Score>(
    index: SparseIndex,
    multiply: M,
    query: Seq<(u32, Score)>,
    f: spec_fn((u32, Score)) -> Seq<(u64, Score)>,
)
    requires
        forall|q: (u32, Score)| #[trigger]
            f(q) == with_feature(index, q.0).map_values(
                |entry: (u32, Score)| (index.local_to_id@[entry.0 as int], arith::binary(multiply, q.1, entry.1)),
            ),
    ensures
        sparse::all_dot_parts(index, multiply, query) == query.flat_map(f),
    decreases query.len(),
{
    if query.len() == 0 {
        assert(query.map_values(f) =~= Seq::empty());
        assert(query.flat_map(f) =~= Seq::empty());
    } else {
        lemma_dot_parts(index, multiply, query.drop_last(), f);
        query.drop_last().lemma_flat_map_push(f, query.last());
        assert(query.drop_last().push(query.last()) =~= query);
        assert(sparse::dot_parts(index, multiply, query.last().0, query.last().1) =~= f(query.last()));
    }
}

/// A search by BM25 adds up, for each document, what the features that it shares with
/// the query weigh: each by its values in both, the length of the document, the number
/// of documents with the feature, the number of all documents and their total length.
pub proof fn law_bm25_search_adds_up_weights<W: Fn(Bm25Term) -> Score, A: Fn(Score, Score) -> Score>(
    index: SparseIndex,
    weigh: W,
    add: A,
    query: Seq<(u32, Score)>,
    top_k: int,
)
    requires
        top_k >= 0,
    ensures
        are_best_sums(
            add,
            query.flat_map(
                |q: (u32, Score)|
                    with_feature(index, q.0).map_values(
                        |entry: (u32, Score)|
                            (
                                index.local_to_id@[entry.0 as int],
                                sparse::weighed(
                                    weigh,
                                    Bm25Term {
                                        query_value: q.1,
                                        term_frequency: entry.1,
                                        doc_len: index.doc_lens@[entry.0 as int],
                                        document_frequency: with_feature(index, q.0).len() as usize,
                                        documents: index.local_to_id@.len() as usize,
                                        total_len: index.total_len,
                                    },
                                ),
                            ),
                    ),
            ),
            top_k,
            tally::top_tallied(add, index.query_parts(weigh, query), top_k),
        ),
{
    let f = |q: (u32, Score)|
        with_feature(index, q.0).map_values(
            |entry: (u32, Score)|
                (
                    index.local_to_id@[entry.0 as int],
                    sparse::weighed(
                        weigh,
                        Bm25Term {
                            query_value: q.1,
                            term_frequency: entry.1,
                            doc_len: index.doc_lens@[entry.0 as int],
                            document_frequency: with_feature(index, q.0).len() as usize,
                            documents: index.local_to_id@.len() as usize,
                            total_len: index.total_len,
                        },
                    ),
                ),
        );
    lemma_query_parts(index, weigh, query, f);
    law_tallies_rank_sums(add, index.query_parts(weigh, query), top_k);
}

proof fn lemma_query_parts<W: Fn(Bm25Term) -> Score>(
    index: SparseIndex,
    weigh: W,
    query: Seq<(u32, Score)>,
    f: spec_fn((u32, Score)) -> Seq<(u64, Score)>,
)
    requires
        forall|q: (u32, Score)| #[trigger]
            f(q) == with_feature(index, q.0).map_values(
                |entry: (u32, Score)|
                    (
                        index.local_to_id@[entry.0 as int],
                        sparse::weighed(
                            weigh,
                            Bm25Term {
                                query_value: q.1,
                                term_frequency: entry.1,
                                doc_len: index.doc_lens@[entry.0 as int],
                                document_frequency: with_feature(index, q.0).len() as usize,
                                documents: index.local_to_id@.len() as usize,
                                total_len: index.total_len,
                            },
                        ),
                    ),
            ),
    ensures
        index.query_parts(weigh, query) == query.flat_map(f),
    decreases query.len(),
{
    if query.len() == 0 {
        assert(query.map_values(f) =~= Seq::empty());
        assert(query.flat_map(f) =~= Seq::empty());
    } else {
        lemma_query_parts(index, weigh, query.drop_last(), f);
        query.drop_last().lemma_flat_map_push(f, query.last());
        assert(query.drop_last().push(query.last()) =~= query);
        assert(index.feature_parts(weigh, query.last().0, query.last().1) =~= f(query.last()));
    }
}

/// The entries of one document among those of all, by what they contribute.
proof fn lemma_own_products<M: Fn(Score, Score) -> Score>(
    index: SparseIndex,
    multiply: M,
    entries: Seq<(u32, Score)>,
    value: Score,
    doc: u32,
)
    requires
        index.wf(),
        doc < index.local_to_id@.len(),
        forall|e: int| 0 <= e < entries.len() ==> (#[trigger] entries[e]).0 < index.local_to_id@.len(),
    ensures
        parts_of(
            entries.map_values(
                |entry: (u32, Score)| (index.local_to_id@[entry.0 as int], arith::binary(multiply, value, entry.1)),
            ),
            index.local_to_id@[doc as int],
        ) == entries.filter(is_in(doc)).map_values(
            |entry: (u32, Score)| entry.1,
        ).map_values(|own: Score| arith::binary(multiply, value, own)),
    decreases entries.len(),
{
    reveal(Seq::filter);
    let f = |entry: (u32, Score)| (index.local_to_id@[entry.0 as int], arith::binary(multiply, value, entry.1));
    let id = index.local_to_id@[doc as int];
    let parts = entries.map_values(f);
    let mine = is_in(doc);
    if entries.len() == 0 {
        assert(parts.filter(is_of(id)) =~= Seq::empty());
        assert(parts_of(parts, id) =~= Seq::empty());
        assert(entries.filter(mine) =~= Seq::empty());
    } else {
        let rest = entries.drop_last();
        assert forall|e: int| 0 <= e < rest.len() implies (#[trigger] rest[e]).0 < index.local_to_id@.len() by {
            assert(entries[e].0 < index.local_to_id@.len());
        }
        lemma_own_products(index, multiply, rest, value, doc);
        let last = entries[entries.len() - 1];
        assert(last.0 < index.local_to_id@.len());
        assert(parts.drop_last() =~= rest.map_values(f));
        assert(parts.last() == f(last));
        assert(index.local_to_id@[last.0 as int] == id <==> last.0 == doc) by {
            assert(index.id_to_local@[index.local_to_id@[last.0 as int]] == last.0);
            assert(index.id_to_local@[index.local_to_id@[doc as int]] == doc);
        }
        let left = parts_of(parts, id);
        let before = parts_of(rest.map_values(f), id);
        let right = entries.filter(mine).map_values(|entry: (u32, Score)| entry.1).map_values(
            |own: Score| arith::binary(multiply, value, own),
        );
        if last.0 == doc {
            assert(left =~= before.push(arith::binary(multiply, value, last.1)));
            assert(entries.filter(mine) == rest.filter(mine).push(last));
            assert(right =~= rest.filter(mine).map_values(|entry: (u32, Score)| entry.1).map_values(
                |own: Score| arith::binary(multiply, value, own),
            ).push(arith::binary(multiply, value, last.1)));
        } else {
            assert(left =~= before);
            assert(entries.filter(mine) == rest.filter(mine));
        }
    }
}

proof fn lemma_document_products<M: Fn(Score, Score) -> Score>(
    index: SparseIndex,
    multiply: M,
    query: Seq<(u32, Score)>,
    doc: u32,
    g: spec_fn((u32, Score)) -> Seq<Score>,
)
    requires
        index.wf(),
        doc < index.local_to_id@.len(),
        forall|q: (u32, Score)| #[trigger]
            g(q) == values_in(index, doc, q.0).map_values(|own: Score| arith::binary(multiply, q.1, own)),
    ensures
        parts_of(sparse::all_dot_parts(index, multiply, query), index.local_to_id@[doc as int]) == query.flat_map(g),
    decreases query.len(),
{
    let id = index.local_to_id@[doc as int];
    let mine = is_of(id);
    if query.len() == 0 {
        reveal(Seq::filter);
        assert(query.map_values(g) =~= Seq::empty());
        assert(query.flat_map(g) =~= Seq::empty());
        let none = sparse::all_dot_parts(index, multiply, query);
        assert(none.filter(mine) =~= Seq::empty());
        assert(parts_of(none, id) =~= Seq::empty());
    } else {
        let rest = query.drop_last();
        let q = query.last();
        lemma_document_products(index, multiply, rest, doc, g);
        rest.lemma_flat_map_push(g, q);
        assert(rest.push(q) =~= query);
        let before = sparse::all_dot_parts(index, multiply, rest);
        let parts = sparse::dot_parts(index, multiply, q.0, q.1);
        Seq::filter_distributes_over_add(before, parts, mine);
        assert(parts_of(before + parts, id) =~= parts_of(before, id) + parts_of(parts, id));
        let entries = with_feature(index, q.0);
        assert forall|e: int| 0 <= e < entries.len() implies (#[trigger] entries[e]).0 < index.local_to_id@.len() by {
            assert(index.entries()[q.0 as int][e].0 < index.local_to_id@.len());
        }
        lemma_own_products(index, multiply, entries, q.1, doc);
        assert(parts =~= entries.map_values(
            |entry: (u32, Score)| (index.local_to_id@[entry.0 as int], arith::binary(multiply, q.1, entry.1)),
        ));
        assert(values_in(index, doc, q.0) == entries.filter(is_in(doc)).map_values(
            |entry: (u32, Score)| entry.1,
        ));
        assert(parts_of(parts, id) =~= g(q));
    }
}

/// The score of a document that a search by products finds is the sum, over the
/// features of the query, of the query's value times each value that the document has
/// of that feature; and it is found only if it shares one.
pub proof fn law_dot_score_is_the_sum_over_shared_features<M: Fn(Score, Score) -> Score, A: Fn(Score, Score) -> Score>(
    index: SparseIndex,
    multiply: M,
    add: A,
    query: Seq<(u32, Score)>,
    top_k: int,
    i: int,
)
    requires
        index.wf(),
        0 <= i < tally::top_tallied(add, sparse::all_dot_parts(index, multiply, query), top_k).len(),
        top_k >= 0,
    ensures
        ({
            let found = tally::top_tallied(add, sparse::all_dot_parts(index, multiply, query), top_k)[i];
            let doc = index.id_to_local@[found.0];
            let products = query.flat_map(
                |q: (u32, Score)| values_in(index, doc, q.0).map_values(|own: Score| arith::binary(multiply, q.1, own)),
            );
            &&& index.id_to_local@.dom().contains(found.0)
            &&& products.len() > 0
            &&& found.1 == sum(add, products)
        }),
{
    let parts = sparse::all_dot_parts(index, multiply, query);
    let out = tally::top_tallied(add, parts, top_k);
    law_tallies_rank_sums(add, parts, top_k);
    let id = out[i].0;
    let mine = is_of(id);
    let own = parts.filter(mine);
    assert(parts_of(parts, id).len() > 0);
    assert(parts_of(parts, id) == own.map_values(|part: (u64, Score)| part.1));
    assert(own.len() > 0);
    parts.lemma_filter_pred(mine, 0);
    parts.lemma_filter_contains_rev(mine, own[0]);
    let at = choose|at: int| 0 <= at < parts.len() && parts[at] == own[0];
    lemma_parts_are_of_documents(index, multiply, query, at);
    let doc = index.id_to_local@[id];
    lemma_document_products(
        index,
        multiply,
        query,
        doc,
        |q: (u32, Score)| values_in(index, doc, q.0).map_values(|own: Score| arith::binary(multiply, q.1, own)),
    );
}

proof fn lemma_parts_are_of_documents<M: Fn(Score, Score) -> Score>(
    index: SparseIndex,
    multiply: M,
    query: Seq<(u32, Score)>,
    at: int,
)
    requires
        index.wf(),
        0 <= at < sparse::all_dot_parts(index, multiply, query).len(),
    ensures
        index.id_to_local@.dom().contains(sparse::all_dot_parts(index, multiply, query)[at].0),
    decreases query.len(),
{
    let rest = query.drop_last();
    let before = sparse::all_dot_parts(index, multiply, rest);
    if at < before.len() {
        lemma_parts_are_of_documents(index, multiply, rest, at);
    } else {
        let e = at - before.len();
        let f = query.last().0;
        assert(index.entries()[f as int][e].0 < index.local_to_id@.len());
        let doc = sparse::entries_for(index.entries(), f)[e].0;
        assert(index.id_to_local@.dom().contains(index.local_to_id@[doc as int]));
    }
}

proof fn lemma_filters(entries: Seq<(u32, Score)>, doc: u32)
    ensures
        sparse::values_of(entries, doc) == entries.filter(is_in(doc)).map_values(
            |entry: (u32, Score)| entry.1,
        ),
        sparse::others(entries, doc) == entries.filter(|entry: (u32, Score)| entry.0 != doc),
    decreases entries.len(),
{
    reveal(Seq::filter);
    let mine = is_in(doc);
    let other = |entry: (u32, Score)| entry.0 != doc;
    if entries.len() == 0 {
        assert(entries.filter(mine).map_values(|entry: (u32, Score)| entry.1) =~= Seq::empty());
        assert(entries.filter(other) =~= Seq::empty());
    } else {
        lemma_filters(entries.drop_last(), doc);
        assert(sparse::values_of(entries, doc) =~= entries.filter(mine).map_values(|entry: (u32, Score)| entry.1));
    }
}

/// An upsert gives a document exactly the values of its new vector, feature by feature
/// and in their order, and leaves all entries of other documents as they were.
pub proof fn law_upsert_stores_the_vector(before: Seq<Seq<(u32, Score)>>, doc: u32, features: Seq<(u32, Score)>, f: u32)
    ensures
        ({
            let after = sparse::with_features(sparse::without_doc(before, doc), doc, features);
            let now = if f < after.len() {
                after[f as int]
            } else {
                Seq::empty()
            };
            let earlier = if f < before.len() {
                before[f as int]
            } else {
                Seq::empty()
            };
            &&& now.filter(is_in(doc)).map_values(|entry: (u32, Score)| entry.1)
                == features.filter(is_in(f)).map_values(
                |feature: (u32, Score)| feature.1,
            )
            &&& now.filter(|entry: (u32, Score)| entry.0 != doc) == earlier.filter(
                |entry: (u32, Score)| entry.0 != doc,
            )
        }),
{
    let after = sparse::with_features(sparse::without_doc(before, doc), doc, features);
    sparse::law_upsert_replaces_the_document(before, doc, features, f);
    lemma_filters(sparse::entries_for(after, f), doc);
    lemma_filters(sparse::entries_for(before, f), doc);
    lemma_filters(features, f);
}

/// The length of a document is the sum of its values.
pub proof fn law_doc_len_is_the_sum<A: Fn(Score, Score) -> Score>(add: A, features: Seq<(u32, Score)>)
    ensures
        sparse::doc_len(add, features) == sum(add, features.map_values(|feature: (u32, Score)| feature.1)),
    decreases features.len(),
{
    let values = features.map_values(|feature: (u32, Score)| feature.1);
    if features.len() > 0 {
        law_doc_len_is_the_sum(add, features.drop_last());
        assert(values.drop_last() =~= features.drop_last().map_values(|feature: (u32, Score)| feature.1));
    }
}

} // verus!
