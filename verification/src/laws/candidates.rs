//! What lists of candidates hold, which vectors are taken, and how numbers are ordered.

use vstd::prelude::*;
use crate::config;
use crate::config::IndexError;
use crate::engine::answer;
use crate::engine::answer::Segments;
use crate::engine::index::MultiVectorIndex;
use crate::engine::late::Kernels;
use crate::engine::rank;
use crate::engine::rank::CandidateHit;
use crate::error::StorageError;
use crate::laws::graph;
use crate::laws::kmeans;
use crate::muvera;
use crate::muvera::FdeEncoder;
use crate::order;
use crate::score;
use crate::score::Score;

verus! {

/// Whether a score is that of a document: the product of its encoding with that of the
/// normalized vectors of a query.
pub open spec fn is_its_score<N, D, G, A>(
    index: MultiVectorIndex,
    kernels: Kernels<'_, N, D, G, A>,
    encoder: FdeEncoder,
    vectors: Seq<Seq<Score>>,
    fde: Seq<u8>,
    document: int,
    s: Score,
) -> bool where
    N: Fn(&[Score]) -> Vec<Score>,
    D: Fn(&[Score], &[Score]) -> Score,
    G: Fn(Score, Score) -> Score,
    A: Fn(Score, Score) -> Score,
 {
    answer::is_score(
        *kernels.dot,
        muvera::query_encoding(
            *kernels.dot,
            *kernels.add,
            encoder,
            kmeans::units(*kernels.normalize, vectors),
            encoder.repetitions@.len(),
        ),
        fde,
        index.state.documents.values@[document].fde_location,
        index.config.encoding_dimension(),
        s,
    )
}

/// Whether a candidate is a document with its score.
pub open spec fn is_scored<N, D, G, A>(
    index: MultiVectorIndex,
    kernels: Kernels<'_, N, D, G, A>,
    encoder: FdeEncoder,
    vectors: Seq<Seq<Score>>,
    fde: Seq<u8>,
    hit: CandidateHit,
) -> bool where
    N: Fn(&[Score]) -> Vec<Score>,
    D: Fn(&[Score], &[Score]) -> Score,
    G: Fn(Score, Score) -> Score,
    A: Fn(Score, Score) -> Score,
 {
    exists|document: int|
        0 <= document < index.state.documents.ids().len() && #[trigger] index.state.documents.ids()[document]
            == hit.id@ && is_its_score(index, kernels, encoder, vectors, fde, document, hit.score)
}

/// Whether a list has a document with a score, or only others that score no less.
pub open spec fn lists_or_beats(
    index: MultiVectorIndex,
    hits: Seq<CandidateHit>,
    document: int,
    s: Score,
) -> bool {
    ||| exists|i: int|
        0 <= i < hits.len() && (#[trigger] hits[i]).id@ == index.state.documents.ids()[document] && hits[i].score == s
    ||| forall|i: int| 0 <= i < hits.len() ==> score::total_key((#[trigger] hits[i]).score) >= score::total_key(s)
}

/// Whether a document is listed with its score, or scores no better than all that are.
pub open spec fn is_listed_or_beaten<N, D, G, A>(
    index: MultiVectorIndex,
    kernels: Kernels<'_, N, D, G, A>,
    encoder: FdeEncoder,
    vectors: Seq<Seq<Score>>,
    fde: Seq<u8>,
    hits: Seq<CandidateHit>,
    document: int,
) -> bool where
    N: Fn(&[Score]) -> Vec<Score>,
    D: Fn(&[Score], &[Score]) -> Score,
    G: Fn(Score, Score) -> Score,
    A: Fn(Score, Score) -> Score,
 {
    exists|s: Score| #[trigger]
        is_its_score(index, kernels, encoder, vectors, fde, document, s) && lists_or_beats(index, hits, document, s)
}

/// A list of candidates by a comparison with all encodings has as many as asked for, or
/// one for each document; each is a document with its score, the best come first, and
/// every document that is left out scores no better than all that are listed.
pub proof fn law_exact_candidate_lists<N, D, G, A>(
    index: MultiVectorIndex,
    kernels: Kernels<'_, N, D, G, A>,
    encoder: FdeEncoder,
    vectors: Seq<Seq<Score>>,
    segments: Segments<'_>,
    count: usize,
    hits: Seq<CandidateHit>,
) where
    N: Fn(&[Score]) -> Vec<Score>,
    D: Fn(&[Score], &[Score]) -> Score,
    G: Fn(Score, Score) -> Score,
    A: Fn(Score, Score) -> Score,

    requires
        index.ok(),
        index.state.documents.ids().len() > 0,
        answer::are_exact_candidates(
            index,
            kernels,
            encoder,
            vectors,
            segments,
            count,
            Ok::<Seq<CandidateHit>, IndexError>(hits),
        ),
    ensures
        hits.len() == if count < index.state.documents.ids().len() {
            count as int
        } else {
            index.state.documents.ids().len() as int
        },
        forall|i: int|
            0 <= i < hits.len() ==> is_scored(index, kernels, encoder, vectors, segments.fde@, #[trigger] hits[i]),
        forall|i: int, j: int|
            0 <= i < j < hits.len() ==> score::total_key((#[trigger] hits[i]).score) >= score::total_key(
                (#[trigger] hits[j]).score,
            ),
        forall|document: int|
            0 <= document < index.state.documents.ids().len() ==> #[trigger] is_listed_or_beaten(
                index,
                kernels,
                encoder,
                vectors,
                segments.fde@,
                hits,
                document,
            ),
{
    graph::law_queries_are_encoded_from_units(*kernels.normalize, *kernels.dot, *kernels.add, encoder, vectors);
    let query = answer::encoded(*kernels.normalize, *kernels.dot, *kernels.add, encoder, vectors);
    let fde = segments.fde@;
    let dimension = index.config.encoding_dimension();
    let places = answer::locations(index);
    assert(index.state.documents.keys.len() == places.len());
    let r = Ok::<Seq<CandidateHit>, IndexError>(hits);
    let ranking = choose|ranking: Result<Seq<(u64, Score)>, IndexError>| #[trigger]
        answer::is_exact_ranking(index, *kernels.dot, query, fde, None, ranking) && answer::are_named(
            index,
            ranking,
            count as int,
            r,
        );
    let list = ranking->Ok_0;
    let found = choose|found: Result<Seq<Score>, StorageError>| #[trigger]
        answer::are_scores(*kernels.dot, query, fde, places, dimension, found) && ranking == match found {
            Err(e) => Err::<Seq<(u64, Score)>, IndexError>(IndexError::Io(e)),
            Ok(scores) => Ok(order::ranking(rank::positioned(scores)).take(scores.len() as int)),
        };
    let scores = found->Ok_0;
    let items = rank::positioned(scores);
    let all = order::ranking(items);
    order::law_ranking(items);
    assert(list =~= all);
    assert(items.len() == index.state.documents.ids().len());
    assert forall|i: int| 0 <= i < all.len() implies {
        let document = (#[trigger] all[i]).0 as int;
        0 <= document < scores.len() && all[i].1 == scores[document]
    } by {
        assert(all.contains(all[i]));
        assert(items.contains(all[i]));
        let k = choose|k: int| 0 <= k < items.len() && items[k] == all[i];
        assert(items[k].0 == k as u64);
    }
    assert forall|i: int| 0 <= i < hits.len() implies is_scored(
        index,
        kernels,
        encoder,
        vectors,
        fde,
        #[trigger] hits[i],
    ) by {
        let document = all[i].0 as int;
        assert(hits[i].id@ == index.state.documents.ids()[document]);
        assert(answer::is_score(*kernels.dot, query, fde, places[document], dimension, scores[document]));
    }
    assert forall|i: int, j: int| 0 <= i < j < hits.len() implies score::total_key((#[trigger] hits[i]).score)
        >= score::total_key((#[trigger] hits[j]).score) by {
        assert(order::ranks_before(all[i], all[j]));
    }
    assert forall|document: int| 0 <= document < index.state.documents.ids().len() implies #[trigger]
        is_listed_or_beaten(index, kernels, encoder, vectors, fde, hits, document) by {
        let s = scores[document];
        assert(answer::is_score(*kernels.dot, query, fde, places[document], dimension, s));
        assert(is_its_score(index, kernels, encoder, vectors, fde, document, s));
        assert(items.contains(items[document]));
        assert(all.contains(items[document]));
        let k = choose|k: int| 0 <= k < all.len() && all[k] == items[document];
        if k < hits.len() {
            assert(hits[k].id@ == index.state.documents.ids()[document]);
        } else {
            assert forall|i: int| 0 <= i < hits.len() implies score::total_key((#[trigger] hits[i]).score)
                >= score::total_key(s) by {
                assert(order::ranks_before(all[i], all[k]));
            }
        }
    }
}

/// A list of candidates over the graph names those of a ranking one by one, up to as many
/// as asked for.
pub proof fn law_graph_candidate_lists<N, D, G, A>(
    index: MultiVectorIndex,
    kernels: Kernels<'_, N, D, G, A>,
    encoder: FdeEncoder,
    vectors: Seq<Seq<Score>>,
    segments: Segments<'_>,
    count: usize,
    ef_search: usize,
    hits: Seq<CandidateHit>,
) where
    N: Fn(&[Score]) -> Vec<Score>,
    D: Fn(&[Score], &[Score]) -> Score,
    G: Fn(Score, Score) -> Score,
    A: Fn(Score, Score) -> Score,

    requires
        answer::are_ann_candidates(
            index,
            kernels,
            encoder,
            vectors,
            segments,
            count,
            ef_search,
            Ok::<Seq<CandidateHit>, IndexError>(hits),
        ),
    ensures
        exists|list: Seq<(u64, Score)>| #[trigger]
            answer::is_ann_ranking(
                index,
                *kernels.dot,
                muvera::query_encoding(
                    *kernels.dot,
                    *kernels.add,
                    encoder,
                    kmeans::units(*kernels.normalize, vectors),
                    encoder.repetitions@.len(),
                ),
                segments.fde@,
                count,
                ef_search,
                Ok::<Seq<(u64, Score)>, IndexError>(list),
            ) && (hits.len() == count || hits.len() == list.len()) && hits.len() <= list.len() && forall|i: int|
                0 <= i < hits.len() ==> (#[trigger] hits[i]).id@ == index.state.documents.ids()[list[i].0 as int]
                    && hits[i].score == list[i].1,
{
    graph::law_queries_are_encoded_from_units(*kernels.normalize, *kernels.dot, *kernels.add, encoder, vectors);
    let query = answer::encoded(*kernels.normalize, *kernels.dot, *kernels.add, encoder, vectors);
    let ranking = choose|ranking: Result<Seq<(u64, Score)>, IndexError>| #[trigger]
        answer::is_ann_ranking(index, *kernels.dot, query, segments.fde@, count, ef_search, ranking)
            && answer::are_named(index, ranking, count as int, Ok::<Seq<CandidateHit>, IndexError>(hits));
    assert(ranking == Ok::<Seq<(u64, Score)>, IndexError>(ranking->Ok_0));
}

/// Vectors are taken as a matrix of finite numbers just where every row has the length
/// and every number of it has another exponent than infinities and NaNs have.
pub proof fn law_matrices_are_looked_through(m: Seq<Seq<Score>>, dimension: nat)
    ensures
        config::finite_matrix(m, dimension) <==> m.all(
            |row: Seq<Score>| row.len() == dimension && row.all(|bits: Score| bits / 0x80_0000 % 0x100 != 0xff),
        ),
{
    assert forall|bits: Score| #[trigger] score::finite(bits) <==> bits / 0x80_0000 % 0x100 != 0xff by {
        assert(bits / 0x80_0000 % 0x100 != 0xff <==> (if bits < 0x8000_0000 {
            bits < 0x7f80_0000
        } else {
            bits - 0x8000_0000 < 0x7f80_0000
        }));
    }
    let fits = |row: Seq<Score>| row.len() == dimension && row.all(|bits: Score| bits / 0x80_0000 % 0x100 != 0xff);
    if config::finite_matrix(m, dimension) {
        assert forall|i: int| 0 <= i < m.len() implies fits(#[trigger] m[i]) by {
            assert(m[i].len() == dimension);
            let ok = |bits: Score| bits / 0x80_0000 % 0x100 != 0xff;
            assert forall|j: int| 0 <= j < m[i].len() implies ok(#[trigger] m[i][j]) by {
                assert(score::finite(m[i][j]));
            }
        }
    }
    if m.all(fits) {
        assert forall|i: int| 0 <= i < m.len() implies (#[trigger] m[i]).len() == dimension && (forall|j: int|
            0 <= j < m[i].len() ==> score::finite(#[trigger] m[i][j])) by {
            assert(fits(m[i]));
            let ok = |bits: Score| bits / 0x80_0000 % 0x100 != 0xff;
            assert forall|j: int| 0 <= j < m[i].len() implies score::finite(#[trigger] m[i][j]) by {
                assert(ok(m[i][j]));
            }
        }
    }
}

/// Numbers are ordered by their signs, and those of one sign by their magnitudes, the
/// negative ones the other way round; both zeros are one number, and NaNs are ordered
/// with none.
pub proof fn law_numbers_are_ordered(a: Score, b: Score)
    ensures
        a < b <= 0x7f80_0000 ==> score::less(a, b) && !score::less(b, a),
        0x8000_0000 <= a < b <= 0xff80_0000 ==> score::less(b, a) && !score::less(a, b),
        0x8000_0000 < a <= 0xff80_0000 && b <= 0x7f80_0000 ==> score::less(a, b) && !score::less(b, a),
        !score::less(a, a),
        !score::less(0, 0x8000_0000) && !score::less(0x8000_0000, 0),
        0x7f80_0000 < a < 0x8000_0000 || 0xff80_0000 < a ==> !score::less(a, b) && !score::less(b, a),
{
}

} // verus!
