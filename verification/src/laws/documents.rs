//! What an index holds of its documents after they were written or deleted, and what it
//! says of them.

use vstd::prelude::*;
use crate::arith;
use crate::config;
use crate::config::IndexError;
use crate::engine::index::MultiVectorIndex;
use crate::engine::persist;
use crate::engine::rank;
use crate::engine::stage::{Encoding, UpsertDocument, Write};
use crate::engine::state;
use crate::engine::state::{AnnView, DocumentRecord, StateView};
use crate::engine::stage;
use crate::engine::train;
use crate::engine::update;
use crate::engine::update::StagedDocument;
use crate::hnsw::types::ScoredPoint;
use crate::laws::kmeans;
use crate::muvera;
use crate::muvera::FdeEncoder;
use crate::score;
use crate::score::Score;
use crate::storage;

verus! {

/// Whether a level is the first of those that are nearest to a number around a center.
pub open spec fn is_nearest_around<G: Fn(Score, Score, Score) -> Score>(
    gap: G,
    levels: Seq<Score>,
    value: Score,
    center: Score,
    l: int,
) -> bool {
    &&& 0 <= l < levels.len()
    &&& forall|o: int|
        0 <= o < levels.len() ==> {
            let own = score::total_key(arith::ternary(gap, value, center, levels[l]));
            let other = score::total_key(arith::ternary(gap, value, center, #[trigger] levels[o]));
            own < other || (own == other && l <= o)
        }
}

proof fn lemma_nearest_around<G: Fn(Score, Score, Score) -> Score>(
    gap: G,
    levels: Seq<Score>,
    value: Score,
    center: Score,
)
    requires
        levels.len() > 0,
    ensures
        is_nearest_around(gap, levels, value, center, storage::residual_code(gap, value, center, levels)),
{
    let all = storage::gaps(gap, value, center, levels);
    let at = storage::lemma_first_least_exists(all);
    let found = storage::residual_code(gap, value, center, levels);
    assert(score::is_first_least(all, found));
    assert forall|o: int| 0 <= o < levels.len() implies {
        let own = score::total_key(arith::ternary(gap, value, center, levels[found]));
        let other = score::total_key(arith::ternary(gap, value, center, #[trigger] levels[o]));
        own < other || (own == other && found <= o)
    } by {
        assert(score::total_key(all[found]) <= score::total_key(all[o]));
        if o < found {
            assert(score::total_key(all[found]) < score::total_key(all[o]));
        }
    }
}

/// How many bytes writes append to a segment: the sum of what each appends.
pub proof fn law_lengths_are_sums(writes: Seq<Write>)
    ensures
        stage::objects_length(writes) == writes.fold_left(0nat, |n: nat, w: Write| n + w.objects@.len()),
        stage::fde_length(writes) == writes.fold_left(0nat, |n: nat, w: Write| n + w.fde@.len()),
    decreases writes.len(),
{
    if writes.len() > 0 {
        law_lengths_are_sums(writes.drop_last());
    }
}

proof fn lemma_last_write(staged: Seq<StagedDocument>, i: int)
    requires
        0 <= i < staged.len(),
        forall|j: int| i < j < staged.len() ==> (#[trigger] staged[j]).id@ != staged[i].id@,
    ensures
        update::last_write(staged, staged[i].id@) == Some(staged[i].record()),
    decreases staged.len(),
{
    if i < staged.len() - 1 {
        let rest = staged.drop_last();
        assert(staged[staged.len() - 1].id@ != staged[i].id@);
        assert forall|j: int| i < j < rest.len() implies (#[trigger] rest[j]).id@ != rest[i].id@ by {
            assert(rest[j] == staged[j]);
        }
        lemma_last_write(rest, i);
    }
}

proof fn lemma_no_write(staged: Seq<StagedDocument>, id: Seq<char>)
    requires
        forall|j: int| 0 <= j < staged.len() ==> (#[trigger] staged[j]).id@ != id,
    ensures
        update::last_write(staged, id) is None,
    decreases staged.len(),
{
    if staged.len() > 0 {
        let rest = staged.drop_last();
        assert(staged[staged.len() - 1].id@ != id);
        assert forall|j: int| 0 <= j < rest.len() implies (#[trigger] rest[j]).id@ != id by {
            assert(rest[j] == staged[j]);
        }
        lemma_no_write(rest, id);
    }
}

/// The last document of a batch with an id is the one that the index then has: with its
/// metadata, with the nearest centroid of each of its normalized vectors, with the
/// nearest level of each number around that centroid in its record, and with the
/// encoding of all these vectors.
pub proof fn law_written_documents_are_recorded<N, D, L, G, A, V, W>(
    kernels: Encoding<'_, N, D, L, G, A, V, W>,
    index: MultiVectorIndex,
    encoder: FdeEncoder,
    batch: Seq<UpsertDocument>,
    objects: nat,
    fde: nat,
    upsert: stage::Upsert,
    i: int,
) where
    N: Fn(&[Score]) -> Vec<Score>,
    D: Fn(&[Score], &[Score]) -> Score,
    L: Fn(&[Score], &[Score]) -> Score,
    G: Fn(Score, Score, Score) -> Score,
    A: Fn(Score, Score) -> Score,
    V: Fn(Score, usize) -> Score,
    W: Fn(Score, usize) -> Score,

    requires
        index.ok(),
        kernels.is_upsert(index, encoder, batch, objects, fde, Ok::<Option<stage::Upsert>, IndexError>(Some(upsert))),
        0 <= i < batch.len(),
        forall|j: int| i < j < batch.len() ==> (#[trigger] batch[j]).id@ != batch[i].id@,
        batch[i].vectors@.len() * 4 + 16 <= usize::MAX,
        batch[i].vectors@.len() * index.config.dimension * index.config.residual_bits + 7 <= usize::MAX,
    ensures
        ({
            let record = upsert.state@.documents[batch[i].id@];
            let vectors = kmeans::units(*kernels.normalize, arith::rows(batch[i].vectors@));
            let write = upsert.writes@[i];
            let before = upsert.writes@.take(i);
            let dimension = index.config.dimension as int;
            let levels = index.state@.residual_codebook;
            &&& upsert.state@.documents.dom().contains(batch[i].id@)
            &&& record.metadata == batch[i].metadata@
            &&& record.tokens == batch[i].vectors@.len()
            &&& record.centroid_ids.len() == batch[i].vectors@.len()
            &&& forall|v: int|
                0 <= v < vectors.len() ==> kmeans::is_nearest(
                    *kernels.distance,
                    index.state@.codebook,
                    #[trigger] vectors[v],
                    record.centroid_ids[v] as int,
                )
            &&& record.location.offset == objects + before.fold_left(0nat, |n: nat, w: Write| n + w.objects@.len())
            &&& record.location.length == write.objects@.len()
            &&& record.compressed_bytes == write.objects@.len()
            &&& storage::le32_at(write.objects@, 0) == batch[i].vectors@.len()
            &&& storage::le32_at(write.objects@, 4) == dimension
            &&& storage::record_ids(write.objects@) == record.centroid_ids
            &&& storage::record_codes(write.objects@).len() == vectors.len() * dimension
            &&& forall|p: int|
                0 <= p < vectors.len() * dimension ==> is_nearest_around(
                    *kernels.gap,
                    levels,
                    vectors[p / dimension][p % dimension],
                    index.state@.codebook[record.centroid_ids[p / dimension] as int][p % dimension],
                    #[trigger] storage::record_codes(write.objects@)[p] as int,
                )
            &&& record.fde_location.offset + record.fde_location.length == fde + upsert.writes@.take(i + 1).fold_left(
                0nat,
                |n: nat, w: Write| n + w.fde@.len(),
            )
            &&& stage::is_aligned_image(
                write.fde@,
                (write.fde@.len() - record.fde_location.length) as nat,
                if encoder.encoding_version == 1 {
                    muvera::document_encoding(
                        *kernels.dot,
                        *kernels.add,
                        *kernels.divide,
                        encoder,
                        vectors,
                        encoder.repetitions@.len(),
                    )
                } else {
                    muvera::document_encoding(
                        *kernels.dot,
                        *kernels.add,
                        *kernels.shrink,
                        encoder,
                        vectors,
                        encoder.repetitions@.len(),
                    )
                },
            )
        }),
{
    let document = batch[i];
    let staged = choose|staged: Seq<StagedDocument>| #[trigger]
        kernels.stages_all(index, encoder, batch, objects, fde, staged, upsert.writes@) && stage::is_after(
            upsert.state,
            index.state@,
            staged,
        );
    let writes = upsert.writes@;
    let o = objects + stage::objects_length(writes.take(i));
    let f = fde + stage::fde_length(writes.take(i));
    assert(kernels.stages(index, encoder, document, o, f, staged[i], writes[i]));
    assert forall|j: int| i < j < staged.len() implies (#[trigger] staged[j]).id@ != staged[i].id@ by {
        assert(batch[j].id@ != batch[i].id@);
        assert(kernels.stages(
            index,
            encoder,
            batch[j],
            objects + stage::objects_length(writes.take(j)),
            fde + stage::fde_length(writes.take(j)),
            staged[j],
            writes[j],
        ));
    }
    lemma_last_write(staged, i);
    update::law_batches_are_last_wins(index.state@, staged, document.id@);
    let record = upsert.state@.documents[document.id@];
    assert(record == staged[i].record());
    let vectors = kmeans::units(*kernels.normalize, arith::rows(document.vectors@));
    assert(kernels.rows(document) =~= vectors);
    assert(vectors.len() == document.vectors@.len());
    law_lengths_are_sums(writes.take(i));
    law_lengths_are_sums(writes.take(i + 1));
    assert(writes.take(i + 1).drop_last() =~= writes.take(i));
    assert(writes.take(i + 1).last() == writes[i]);
    assert(index.state@.codebook.len() > 0) by {
        assert(stage::vectors_of(batch).len() == batch.len());
    }
    assert(staged[i].centroid_ids@.len() == vectors.len());
    persist::law_written_documents_decode(kernels, index, document);
    let codebook = index.state@.codebook;
    let levels = index.state@.residual_codebook;
    let dimension = index.config.dimension as int;
    vstd::arithmetic::power2::lemma_pow2_pos(index.config.residual_bits as nat);
    vstd::arithmetic::power2::lemma2_to64();
    if index.config.residual_bits < 8 {
        vstd::arithmetic::power2::lemma_pow2_strictly_increases(index.config.residual_bits as nat, 8);
    }
    assert forall|v: int| 0 <= v < vectors.len() implies kmeans::is_nearest(
        *kernels.distance,
        codebook,
        #[trigger] vectors[v],
        record.centroid_ids[v] as int,
    ) by {
        let c = train::nearest_center(*kernels.distance, vectors[v], codebook);
        kmeans::law_nearest_center_is_nearest(*kernels.distance, codebook, vectors[v], c);
        assert(record.centroid_ids[v] == c as u32);
    }
    assert forall|p: int| 0 <= p < vectors.len() * dimension implies is_nearest_around(
        *kernels.gap,
        levels,
        vectors[p / dimension][p % dimension],
        codebook[record.centroid_ids[p / dimension] as int][p % dimension],
        #[trigger] storage::record_codes(writes[i].objects@)[p] as int,
    ) by {
        let value = vectors[p / dimension][p % dimension];
        let center = codebook[record.centroid_ids[p / dimension] as int][p % dimension];
        lemma_nearest_around(*kernels.gap, levels, value, center);
    }
}

/// Writing a batch changes nothing of documents that are not in it, nor the codebooks,
/// and gives the next generation.
pub proof fn law_writing_leaves_other_documents<N, D, L, G, A, V, W>(
    kernels: Encoding<'_, N, D, L, G, A, V, W>,
    index: MultiVectorIndex,
    encoder: FdeEncoder,
    batch: Seq<UpsertDocument>,
    objects: nat,
    fde: nat,
    upsert: stage::Upsert,
    id: Seq<char>,
) where
    N: Fn(&[Score]) -> Vec<Score>,
    D: Fn(&[Score], &[Score]) -> Score,
    L: Fn(&[Score], &[Score]) -> Score,
    G: Fn(Score, Score, Score) -> Score,
    A: Fn(Score, Score) -> Score,
    V: Fn(Score, usize) -> Score,
    W: Fn(Score, usize) -> Score,

    requires
        index.ok(),
        kernels.is_upsert(index, encoder, batch, objects, fde, Ok::<Option<stage::Upsert>, IndexError>(Some(upsert))),
        forall|j: int| 0 <= j < batch.len() ==> (#[trigger] batch[j]).id@ != id,
    ensures
        upsert.state@.documents.dom().contains(id) <==> index.state@.documents.dom().contains(id),
        index.state@.documents.dom().contains(id) ==> upsert.state@.documents[id] == index.state@.documents[id],
        upsert.state@.codebook == index.state@.codebook,
        upsert.state@.residual_codebook == index.state@.residual_codebook,
        upsert.state@.generation == index.state@.generation + 1,
{
    let staged = choose|staged: Seq<StagedDocument>| #[trigger]
        kernels.stages_all(index, encoder, batch, objects, fde, staged, upsert.writes@) && stage::is_after(
            upsert.state,
            index.state@,
            staged,
        );
    let writes = upsert.writes@;
    assert forall|j: int| 0 <= j < staged.len() implies (#[trigger] staged[j]).id@ != id && staged[j].fits(
        index.state@.codebook.len(),
    ) by {
        assert(batch[j].id@ != id);
        assert(kernels.stages(
            index,
            encoder,
            batch[j],
            objects + stage::objects_length(writes.take(j)),
            fde + stage::fde_length(writes.take(j)),
            staged[j],
            writes[j],
        ));
    }
    lemma_no_write(staged, id);
    update::law_batches_are_last_wins(index.state@, staged, id);
    update::law_batches_keep_the_invariant(index.state@, staged);
}

/// A deleted document is gone, from the lists of its centroids too; every other stays.
pub proof fn law_deleting_removes_one_document(s: StateView, id: Seq<char>, other: Seq<char>, c: int)
    requires
        other != id,
        0 <= c < s.postings.len(),
    ensures
        !s.deleted(id).documents.dom().contains(id),
        !s.deleted(id).postings[c].contains(id),
        s.deleted(id).documents.dom().contains(other) <==> s.documents.dom().contains(other),
        s.documents.dom().contains(other) ==> s.deleted(id).documents[other] == s.documents[other],
        s.deleted(id).postings[c].contains(other) <==> s.postings[c].contains(other),
        s.deleted(id).codebook == s.codebook,
        s.deleted(id).residual_codebook == s.residual_codebook,
{
}

/// An index counts the vectors of all its documents, and their bytes.
pub proof fn law_figures_are_sums(documents: Seq<DocumentRecord>)
    ensures
        rank::token_sum(documents) == documents.fold_left(0nat, |n: nat, d: DocumentRecord| n + d.tokens as nat),
        rank::byte_sum(documents) == documents.fold_left(
            0nat,
            |n: nat, d: DocumentRecord| n + d.compressed_bytes as nat,
        ),
    decreases documents.len(),
{
    if documents.len() > 0 {
        law_figures_are_sums(documents.drop_last());
    }
}

/// The marks of a graph's points are counted one by one.
pub proof fn law_marks_are_counted(tombstones: Seq<bool>)
    ensures
        state::marks(tombstones) == tombstones.filter(|mark: bool| mark).len(),
    decreases tombstones.len(),
{
    reveal(Seq::filter);
    if tombstones.len() > 0 {
        law_marks_are_counted(tombstones.drop_last());
    }
}

/// Whether a point of a graph still stands for its document.
pub open spec fn stands(ann: AnnView) -> spec_fn(ScoredPoint) -> bool {
    |point: ScoredPoint| point.id < ann.base.len() && !ann.tombstones[point.id as int]
}

/// Every point of a graph that still stands for its document gives it the score of the
/// point, in the order in which they were found.
pub proof fn law_points_score_their_documents(index: MultiVectorIndex, ann: AnnView, points: Seq<ScoredPoint>)
    ensures
        rank::base_scores(index, ann, points) == points.filter(stands(ann)).map_values(
            |point: ScoredPoint|
                (index.state.documents.index_of(ann.base[point.id as int]) as u64, score::negated(point.sort_key)),
        ),
    decreases points.len(),
{
    reveal(Seq::filter);
    let f = |point: ScoredPoint|
        (index.state.documents.index_of(ann.base[point.id as int]) as u64, score::negated(point.sort_key));
    if points.len() == 0 {
        assert(points.filter(stands(ann)).map_values(f) =~= Seq::empty());
    } else {
        law_points_score_their_documents(index, ann, points.drop_last());
        let before = points.drop_last().filter(stands(ann));
        let last = points.last();
        if ann.live(last.id as int) {
            assert(points.filter(stands(ann)) == before.push(last));
            assert(before.push(last).map_values(f) =~= before.map_values(f).push(f(last)));
        } else {
            assert(points.filter(stands(ann)) == before);
        }
    }
}

/// A query that names no number of candidates scores eight for each result; one that
/// does scores as many, but never fewer than the results.
pub proof fn law_candidate_budgets(top_k: usize, n: usize)
    ensures
        top_k * 8 <= usize::MAX ==> config::candidate_budget(top_k, None) == top_k * 8,
        n >= top_k ==> config::candidate_budget(top_k, Some(n)) == n,
        n < top_k ==> config::candidate_budget(top_k, Some(n)) == top_k,
{
}

} // verus!
