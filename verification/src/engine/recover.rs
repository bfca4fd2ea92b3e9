//! What stays of an index on disk: that it opens again, whatever moment its writing
//! was interrupted at, and answers as before.

use vstd::prelude::*;
use crate::config;
use crate::config::{Durability, IndexConfig, IndexError, Reason};
use crate::engine::answer;
use crate::engine::answer::Segments;
use crate::engine::assemble;
use crate::engine::index;
use crate::engine::index::MultiVectorIndex;
use crate::engine::late;
use crate::engine::late::Kernels;
use crate::engine::manifest;
use crate::engine::manifest::{Manifest, SegmentBoundaries};
use crate::engine::nearest;
use crate::engine::persist;
use crate::engine::rank;
use crate::engine::rank::Hit;
use crate::engine::stage;
use crate::engine::stage::{Encoding, UpsertDocument, Write};
use crate::engine::state;
use crate::engine::state::{DocumentRecord, RecordView, StateView};
use crate::engine::update;
use crate::engine::update::StagedDocument;
use crate::error::StorageError;
use crate::ids;
use crate::muvera;
use crate::muvera::FdeEncoder;
use crate::order;
use crate::score;
use crate::score::Score;
use crate::storage;

verus! {

/// Whether a record can be read back from segments: its bytes have their digests and
/// decode, to finite numbers, to what the record says.
pub open spec fn is_kept<A: Fn(Score, Score) -> Score>(
    c: IndexConfig,
    s: StateView,
    record: RecordView,
    objects: Seq<u8>,
    fde: Seq<u8>,
    add: A,
) -> bool {
    manifest::document_error(c, s.codebook, s.residual_codebook, record, objects, fde, true, add) is None
}

/// Whether all documents of a state can be read back from segments.
pub open spec fn all_kept<A: Fn(Score, Score) -> Score>(
    c: IndexConfig,
    s: StateView,
    objects: Seq<u8>,
    fde: Seq<u8>,
    add: A,
) -> bool {
    forall|id: Seq<char>| #[trigger]
        s.documents.dom().contains(id) ==> is_kept(c, s, s.documents[id], objects, fde, add)
}

/// What can be read back from segments can be read back when bytes follow.
proof fn lemma_kept_longer<A: Fn(Score, Score) -> Score>(
    c: IndexConfig,
    s: StateView,
    t: StateView,
    record: RecordView,
    objects: Seq<u8>,
    fde: Seq<u8>,
    more_objects: Seq<u8>,
    more_fde: Seq<u8>,
    add: A,
)
    requires
        is_kept(c, s, record, objects, fde, add),
        t.codebook == s.codebook,
        t.residual_codebook == s.residual_codebook,
    ensures
        is_kept(c, t, record, objects + more_objects, fde + more_fde, add),
{
    assert(storage::record(objects + more_objects, record.location) =~= storage::record(objects, record.location));
    assert(storage::record(fde + more_fde, record.fde_location) =~= storage::record(fde, record.fde_location));
}

/// Dropping a document keeps the others readable, whatever is appended.
pub proof fn law_deletions_keep_documents<A: Fn(Score, Score) -> Score>(
    c: IndexConfig,
    s: StateView,
    objects: Seq<u8>,
    fde: Seq<u8>,
    more_objects: Seq<u8>,
    more_fde: Seq<u8>,
    add: A,
    id: Seq<char>,
)
    requires
        all_kept(c, s, objects, fde, add),
    ensures
        all_kept(c, s.deleted(id).committed(), objects + more_objects, fde + more_fde, add),
{
    let next = s.deleted(id).committed();
    assert forall|x: Seq<char>| #[trigger] next.documents.dom().contains(x) implies is_kept(
        c,
        next,
        next.documents[x],
        objects + more_objects,
        fde + more_fde,
        add,
    ) by {
        assert(s.documents.dom().contains(x));
        lemma_kept_longer(c, s, next, s.documents[x], objects, fde, more_objects, more_fde, add);
    }
}

/// An index is trained only while it has no documents: then there is nothing to be read
/// back.
pub proof fn law_training_keeps_documents<A: Fn(Score, Score) -> Score>(
    c: IndexConfig,
    s: StateView,
    codebook: Seq<Seq<Score>>,
    residual_codebook: Seq<Score>,
    objects: Seq<u8>,
    fde: Seq<u8>,
    add: A,
)
    requires
        s.documents.dom() == Set::<Seq<char>>::empty(),
    ensures
        all_kept(c, s.trained(codebook, residual_codebook).committed(), objects, fde, add),
{
}

/// Whether the numbers to which a document decodes are finite, under the codebooks of
/// an index.
pub open spec fn decodes_to_numbers<N, D, L, G, A, V, W>(
    kernels: Encoding<'_, N, D, L, G, A, V, W>,
    index: MultiVectorIndex,
    document: UpsertDocument,
) -> bool where
    N: Fn(&[Score]) -> Vec<Score>,
    D: Fn(&[Score], &[Score]) -> Score,
    L: Fn(&[Score], &[Score]) -> Score,
    G: Fn(Score, Score, Score) -> Score,
    A: Fn(Score, Score) -> Score,
    V: Fn(Score, usize) -> Score,
    W: Fn(Score, usize) -> Score,
 {
    let values = storage::decoded(
        *kernels.add,
        kernels.object(index, document),
        index.state@.codebook,
        index.state@.residual_codebook,
    );
    forall|i: int| 0 <= i < values.len() ==> score::finite(#[trigger] values[i])
}

/// Whether the sizes of a document fit in the machine's numbers.
pub open spec fn fits_memory(c: IndexConfig, vectors: int) -> bool {
    &&& 0 < vectors <= u32::MAX
    &&& vectors * 4 + 16 <= usize::MAX
    &&& vectors * c.dimension * c.residual_bits + 7 <= usize::MAX
}

/// Writing a batch keeps every document readable, those before and those of the
/// batch, once what the batch appends is in the segments.
pub proof fn law_batches_keep_documents<N, D, L, G, A, V, W>(
    kernels: Encoding<'_, N, D, L, G, A, V, W>,
    index: MultiVectorIndex,
    encoder: FdeEncoder,
    batch: Seq<UpsertDocument>,
    staged: Seq<StagedDocument>,
    writes: Seq<Write>,
    objects: Seq<u8>,
    fde: Seq<u8>,
) where
    N: Fn(&[Score]) -> Vec<Score>,
    D: Fn(&[Score], &[Score]) -> Score,
    L: Fn(&[Score], &[Score]) -> Score,
    G: Fn(Score, Score, Score) -> Score,
    A: Fn(Score, Score) -> Score,
    V: Fn(Score, usize) -> Score,
    W: Fn(Score, usize) -> Score,

    requires
        index.ok(),
        index.encodes_with(encoder),
        index.state@.codebook.len() > 0,
        all_kept(index.config, index.state@, objects, fde, *kernels.add),
        kernels.stages_all(index, encoder, batch, objects.len(), fde.len(), staged, writes),
        objects.len() + persist::appended_objects(writes).len() <= usize::MAX,
        fde.len() + persist::appended_fde(writes).len() <= usize::MAX,
        forall|i: int|
            0 <= i < batch.len() ==> decodes_to_numbers(kernels, index, #[trigger] batch[i]) && fits_memory(
                index.config,
                batch[i].vectors@.len() as int,
            ),
    ensures
        all_kept(
            index.config,
            update::upserts(index.state@, staged).committed(),
            objects + persist::appended_objects(writes),
            fde + persist::appended_fde(writes),
            *kernels.add,
        ),
{
    let more_objects = persist::appended_objects(writes);
    let more_fde = persist::appended_fde(writes);
    let s = index.state@;
    let next = update::upserts(s, staged).committed();
    assert forall|i: int| 0 <= i < staged.len() implies (#[trigger] staged[i]).fits(s.codebook.len()) by {
        assert(kernels.stages(
            index,
            encoder,
            batch[i],
            objects.len() + stage::objects_length(writes.take(i)),
            fde.len() + stage::fde_length(writes.take(i)),
            staged[i],
            writes[i],
        ));
    }
    update::law_batches_keep_the_invariant(s, staged);
    assert forall|id: Seq<char>| #[trigger] next.documents.dom().contains(id) implies is_kept(
        index.config,
        next,
        next.documents[id],
        objects + more_objects,
        fde + more_fde,
        *kernels.add,
    ) by {
        update::law_batches_are_last_wins(s, staged, id);
        match update::last_write(staged, id) {
            Some(record) => {
                let i = lemma_last_write(staged, id);
                lemma_new_document_is_kept(kernels, index, encoder, batch, staged, writes, objects, fde, i, next);
            },
            None => {
                lemma_kept_longer(
                    index.config,
                    s,
                    next,
                    s.documents[id],
                    objects,
                    fde,
                    more_objects,
                    more_fde,
                    *kernels.add,
                );
            },
        }
    }
}

proof fn lemma_last_write(batch: Seq<StagedDocument>, id: Seq<char>) -> (i: int)
    requires
        update::last_write(batch, id) is Some,
    ensures
        0 <= i < batch.len(),
        update::last_write(batch, id) == Some(batch[i].record()),
    decreases batch.len(),
{
    if batch.last().id@ == id {
        batch.len() - 1
    } else {
        lemma_last_write(batch.drop_last(), id)
    }
}

proof fn lemma_new_document_is_kept<N, D, L, G, A, V, W>(
    kernels: Encoding<'_, N, D, L, G, A, V, W>,
    index: MultiVectorIndex,
    encoder: FdeEncoder,
    batch: Seq<UpsertDocument>,
    staged: Seq<StagedDocument>,
    writes: Seq<Write>,
    objects: Seq<u8>,
    fde: Seq<u8>,
    i: int,
    next: StateView,
) where
    N: Fn(&[Score]) -> Vec<Score>,
    D: Fn(&[Score], &[Score]) -> Score,
    L: Fn(&[Score], &[Score]) -> Score,
    G: Fn(Score, Score, Score) -> Score,
    A: Fn(Score, Score) -> Score,
    V: Fn(Score, usize) -> Score,
    W: Fn(Score, usize) -> Score,

    requires
        index.ok(),
        index.encodes_with(encoder),
        index.state@.codebook.len() > 0,
        kernels.stages_all(index, encoder, batch, objects.len(), fde.len(), staged, writes),
        objects.len() + persist::appended_objects(writes).len() <= usize::MAX,
        fde.len() + persist::appended_fde(writes).len() <= usize::MAX,
        0 <= i < batch.len(),
        decodes_to_numbers(kernels, index, batch[i]),
        fits_memory(index.config, batch[i].vectors@.len() as int),
        next.codebook == index.state@.codebook,
        next.residual_codebook == index.state@.residual_codebook,
    ensures
        is_kept(
            index.config,
            next,
            staged[i].record(),
            objects + persist::appended_objects(writes),
            fde + persist::appended_fde(writes),
            *kernels.add,
        ),
{
    persist::law_written_documents_are_found(kernels, index, encoder, batch, staged, writes, objects, fde, i);
    persist::law_written_documents_decode(kernels, index, batch[i]);
    let document = batch[i];
    let record = staged[i].record();
    let o = objects.len() + stage::objects_length(writes.take(i));
    let f = fde.len() + stage::fde_length(writes.take(i));
    assert(kernels.stages(index, encoder, batch[i], o, f, staged[i], writes[i]));
    muvera::law_encoding_has_the_output_dimension(
        *kernels.dot,
        *kernels.add,
        *kernels.divide,
        encoder,
        kernels.rows(document),
        encoder.repetitions@.len(),
    );
    muvera::law_encoding_has_the_output_dimension(
        *kernels.dot,
        *kernels.add,
        *kernels.shrink,
        encoder,
        kernels.rows(document),
        encoder.repetitions@.len(),
    );
    assert(record.fde_location.length == 4 * index.config.encoding_dimension());
    assert(record.centroid_ids == kernels.centroids(index, document));
    assert(record.centroid_ids.len() == document.vectors@.len());
    update::lemma_record_fits(staged[i], index.state@.codebook.len());
}

/// What is on disk of an index.
pub struct Disk {
    pub manifest: Manifest,
    pub objects: Seq<u8>,
    pub fde: Seq<u8>,
}

impl Disk {
    /// Whether a generation is committed there: the manifest describes it, with
    /// boundaries at the ends of the segments, its codebooks are finite, and all its
    /// documents can be read back.
    pub open spec fn holds<A: Fn(Score, Score) -> Score>(self, index: MultiVectorIndex, s: StateView, add: A) -> bool {
        &&& s.wf()
        &&& self.objects.len() <= u64::MAX
        &&& self.fde.len() <= u64::MAX
        &&& index.describes(self.manifest, s, self.boundaries())
        &&& config::codebooks_valid(
            index.config,
            s.codebook,
            s.residual_codebook,
            self.manifest.documents.ids().len() > 0,
        )
        &&& all_kept(index.config, s, self.objects, self.fde, add)
    }

    /// The ends of the segments.
    pub open spec fn boundaries(self) -> SegmentBoundaries {
        SegmentBoundaries { objects: self.objects.len() as u64, fde: self.fde.len() as u64 }
    }

    /// Whether this is found where another was left, with whatever was appended to the
    /// segments since.
    pub open spec fn continues(self, earlier: Disk) -> bool {
        &&& self.manifest == earlier.manifest
        &&& earlier.objects.is_prefix_of(self.objects)
        &&& earlier.fde.is_prefix_of(self.fde)
    }
}

/// Whether opening gave a generation back: its documents, codebooks and number,
/// without a graph, and with the segments cut back to their committed ends. It may
/// fail only for what the machine decides: where the bytes of an encoding lie not
/// aligned in memory, or are no finite numbers in the byte order in which they are
/// read.
pub open spec fn gives_back(
    index: MultiVectorIndex,
    s: StateView,
    disk: Disk,
    r: Result<(MultiVectorIndex, SegmentBoundaries), IndexError>,
) -> bool {
    match r {
        Ok((after, cut)) => {
            &&& after.ok()
            &&& after.state@ == (StateView { fde_ann: None, ..s })
            &&& after.config == index.config
            &&& after.fde_encoding_version == index.fde_encoding_version
            &&& cut == disk.boundaries()
        },
        Err(e) => {
            ||| e == IndexError::Io(StorageError::FdeUnaligned)
            ||| e == IndexError::Invalid(Reason::NonFiniteFde) && exists|id: Seq<char>| #[trigger]
                s.documents.dom().contains(id) && manifest::encoding_is(
                    disk.fde,
                    s.documents[id].fde_location,
                    false,
                )
        },
    }
}

/// A committed index opens again, also where bytes follow that were never committed.
pub proof fn law_committed_index_opens_again<A: Fn(Score, Score) -> Score>(
    index: MultiVectorIndex,
    s: StateView,
    disk: Disk,
    found: Disk,
    durability: Durability,
    add: A,
    r: Result<(MultiVectorIndex, SegmentBoundaries), IndexError>,
)
    requires
        index.ok(),
        index.fde_encoding_version == 1 || index.fde_encoding_version == 2,
        disk.holds(index, s, add),
        found.continues(disk),
        index::opened(index.config, durability, Some((found.manifest, true)), found.objects, found.fde, add, r),
    ensures
        gives_back(index, s, disk, r),
{
    let m = disk.manifest;
    let source = Some((m, true));
    let b = disk.boundaries();
    let names = m.documents.ids();
    assert(found.objects.take(b.objects as int) =~= disk.objects);
    assert(found.fde.take(b.fde as int) =~= disk.fde);
    assert forall|k: int| 0 <= k < names.len() implies s.documents.dom().contains(#[trigger] names[k])
        && s.documents[names[k]] == m.documents.values@[k]@ by {
        m.documents.lemma_entry(k);
        assert(state::records(m.documents)[names[k]] == m.documents.values@[k]@);
    }
    if names.len() > 0 {
        assert(s.documents.dom().contains(names[0]));
        let record = s.documents[names[0]];
        assert(is_kept(index.config, s, record, disk.objects, disk.fde, add));
        assemble::lemma_dimension_positive(index.config);
        assert(storage::record(disk.objects, record.location).len() >= 16);
        assert(disk.objects.len() > 0 && disk.fde.len() > 0);
    }
    assert(index::open_error(index.config, source, found.objects.len(), found.fde.len()) is None);
    match r {
        Ok((after, cut)) => {
            persist::law_reopening_gives_back_the_state(
                index,
                s,
                m,
                b,
                durability,
                found.objects,
                found.fde,
                add,
                after,
                cut,
            );
        },
        Err(e) => {
            let k = choose|k: int|
                0 <= k < m.documents.values@.len() && #[trigger] index::document_refused(
                    m,
                    k,
                    disk.objects,
                    disk.fde,
                    true,
                    add,
                    e,
                );
            assert(s.documents.dom().contains(names[k]));
            assert(is_kept(index.config, s, s.documents[names[k]], disk.objects, disk.fde, add));
        },
    }
}

/// A crash at any moment of a commit leaves one whole generation, which opens: the new
/// one where the manifest was renamed already, the old one where it was not.
pub proof fn law_crash_leaves_one_generation<A: Fn(Score, Score) -> Score>(
    index: MultiVectorIndex,
    before: StateView,
    old_disk: Disk,
    after: StateView,
    new_disk: Disk,
    renamed: bool,
    found: Disk,
    durability: Durability,
    add: A,
    r: Result<(MultiVectorIndex, SegmentBoundaries), IndexError>,
)
    requires
        index.ok(),
        index.fde_encoding_version == 1 || index.fde_encoding_version == 2,
        old_disk.holds(index, before, add),
        new_disk.holds(index, after, add),
        found.continues(
            if renamed {
                new_disk
            } else {
                old_disk
            },
        ),
        index::opened(index.config, durability, Some((found.manifest, true)), found.objects, found.fde, add, r),
    ensures
        renamed ==> gives_back(index, after, new_disk, r),
        !renamed ==> gives_back(index, before, old_disk, r),
{
    if renamed {
        law_committed_index_opens_again(index, after, new_disk, found, durability, add, r);
    } else {
        law_committed_index_opens_again(index, before, old_disk, found, durability, add, r);
    }
}

/// Indexes with the same documents have them at the same positions.
proof fn lemma_same_documents(a: MultiVectorIndex, b: MultiVectorIndex)
    requires
        a.ok(),
        b.ok(),
        a.state@.documents == b.state@.documents,
    ensures
        a.state.documents.ids() == b.state.documents.ids(),
        a.state.documents.values@.len() == b.state.documents.values@.len(),
        forall|i: int|
            0 <= i < a.state.documents.values@.len() ==> (#[trigger] a.state.documents.values@[i])@
                == b.state.documents.values@[i]@,
{
    let x = a.state.documents;
    let y = b.state.documents;
    assert forall|id: Seq<char>| #[trigger] x.ids().contains(id) <==> y.ids().contains(id) by {
        if x.ids().contains(id) {
            assert(a.state@.documents.dom().contains(id));
            assert(b.state@.documents.dom().contains(id));
        }
        if y.ids().contains(id) {
            assert(b.state@.documents.dom().contains(id));
            assert(a.state@.documents.dom().contains(id));
        }
    }
    ids::law_ascending_ids_are_unique(x.ids(), y.ids());
    assert forall|i: int| 0 <= i < x.values@.len() implies (#[trigger] x.values@[i])@ == y.values@[i]@ by {
        x.lemma_entry(i);
        y.lemma_entry(i);
        assert(a.state@.documents[x.ids()[i]] == x.values@[i]@);
        assert(b.state@.documents[y.ids()[i]] == y.values@[i]@);
    }
}

/// An index that was opened again answers a query exactly as before, and has the same
/// figures; it has no graph.
pub proof fn law_reopened_index_answers_alike<N, D, G, A>(
    before: MultiVectorIndex,
    after: MultiVectorIndex,
    kernels: Kernels<'_, N, D, G, A>,
    encoder: FdeEncoder,
    vectors: Seq<Seq<Score>>,
    segments: Segments<'_>,
    top_k: usize,
    candidates: Option<usize>,
    r: Result<Seq<Hit>, IndexError>,
) where
    N: Fn(&[Score]) -> Vec<Score>,
    D: Fn(&[Score], &[Score]) -> Score,
    G: Fn(Score, Score) -> Score,
    A: Fn(Score, Score) -> Score,

    requires
        before.ok(),
        after.ok(),
        after.config == before.config,
        after.fde_encoding_version == before.fde_encoding_version,
        after.state@ == (StateView { fde_ann: None, ..before.state@ }),
    ensures
        answer::is_query(before, kernels, encoder, vectors, segments, top_k, candidates, r) <==> answer::is_query(
            after,
            kernels,
            encoder,
            vectors,
            segments,
            top_k,
            candidates,
            r,
        ),
        after.chosen_backend() is Muvera,
        after.encodes_with(encoder) <==> before.encodes_with(encoder),
        after.state.documents.ids() == before.state.documents.ids(),
        rank::token_sum(after.state.documents.values@) == rank::token_sum(before.state.documents.values@),
        rank::byte_sum(after.state.documents.values@) == rank::byte_sum(before.state.documents.values@),
{
    lemma_same_documents(before, after);
    lemma_same_sums(before.state.documents.values@, after.state.documents.values@);
    if answer::is_query(before, kernels, encoder, vectors, segments, top_k, candidates, r) {
        lemma_same_answer(before, after, kernels, encoder, vectors, segments, top_k, candidates, r);
    }
    if answer::is_query(after, kernels, encoder, vectors, segments, top_k, candidates, r) {
        lemma_same_documents(after, before);
        lemma_same_answer(after, before, kernels, encoder, vectors, segments, top_k, candidates, r);
    }
}

proof fn lemma_same_sums(a: Seq<DocumentRecord>, b: Seq<DocumentRecord>)
    requires
        a.len() == b.len(),
        forall|i: int| 0 <= i < a.len() ==> (#[trigger] a[i])@ == b[i]@,
    ensures
        rank::token_sum(a) == rank::token_sum(b),
        rank::byte_sum(a) == rank::byte_sum(b),
    decreases a.len(),
{
    if a.len() > 0 {
        assert(a[a.len() - 1]@ == b[a.len() - 1]@);
        assert forall|i: int| 0 <= i < a.drop_last().len() implies (#[trigger] a.drop_last()[i])@ == b.drop_last()[i]@ by {
            assert(a[i]@ == b[i]@);
        }
        lemma_same_sums(a.drop_last(), b.drop_last());
    }
}

proof fn lemma_same_answer<N, D, G, A>(
    before: MultiVectorIndex,
    after: MultiVectorIndex,
    kernels: Kernels<'_, N, D, G, A>,
    encoder: FdeEncoder,
    vectors: Seq<Seq<Score>>,
    segments: Segments<'_>,
    top_k: usize,
    candidates: Option<usize>,
    r: Result<Seq<Hit>, IndexError>,
) where
    N: Fn(&[Score]) -> Vec<Score>,
    D: Fn(&[Score], &[Score]) -> Score,
    G: Fn(Score, Score) -> Score,
    A: Fn(Score, Score) -> Score,

    requires
        before.ok(),
        after.config == before.config,
        after.state@.documents == before.state@.documents,
        after.state@.codebook == before.state@.codebook,
        after.state@.residual_codebook == before.state@.residual_codebook,
        after.state.documents.ids() == before.state.documents.ids(),
        after.state.documents.values@.len() == before.state.documents.values@.len(),
        forall|i: int|
            0 <= i < before.state.documents.values@.len() ==> (#[trigger] before.state.documents.values@[i])@
                == after.state.documents.values@[i]@,
        answer::is_query(before, kernels, encoder, vectors, segments, top_k, candidates, r),
    ensures
        answer::is_query(after, kernels, encoder, vectors, segments, top_k, candidates, r),
{
    assert(answer::locations(after) =~= answer::locations(before)) by {
        assert forall|i: int| 0 <= i < answer::locations(before).len() implies answer::locations(after)[i]
            == answer::locations(before)[i] by {
            assert(before.state.documents.values@[i]@ == after.state.documents.values@[i]@);
        }
    }
    if before.takes(vectors) && top_k > 0 {
        let query = answer::encoded(*kernels.normalize, *kernels.dot, *kernels.add, encoder, vectors);
        let unit = late::normalized_rows(*kernels.normalize, vectors);
        let budget = config::candidate_budget(top_k, candidates);
        let ranking = choose|ranking: Result<Seq<(u64, Score)>, IndexError>|
            #[trigger] answer::is_exact_ranking(
                before,
                *kernels.dot,
                query,
                segments.fde@,
                Some(budget as usize),
                ranking,
            ) && answer::is_answer(
                before,
                *kernels.dot,
                *kernels.greater,
                *kernels.add,
                unit,
                segments.objects@,
                ranking,
                top_k,
                budget,
                r,
            );
        assert(answer::is_exact_ranking(
            after,
            *kernels.dot,
            query,
            segments.fde@,
            Some(budget as usize),
            ranking,
        ));
        if let Ok(list) = ranking {
            nearest::law_exact_candidates(
                before,
                *kernels.dot,
                query,
                segments.fde@,
                Some(budget as usize),
                list,
            );
            let x = answer::exact_scores(
                before,
                *kernels.dot,
                *kernels.greater,
                *kernels.add,
                unit,
                segments.objects@,
                list,
                budget,
            );
            let y = answer::exact_scores(
                after,
                *kernels.dot,
                *kernels.greater,
                *kernels.add,
                unit,
                segments.objects@,
                list,
                budget,
            );
            assert forall|i: int| 0 <= i < x.len() implies x[i] == y[i] by {
                assert(list[i].0 < before.state.documents.ids().len());
                assert(before.state.documents.values@[list[i].0 as int]@
                    == after.state.documents.values@[list[i].0 as int]@);
            }
            assert(x =~= y);
            if let Ok(hits) = r {
                if list.len() > 0 {
                    let values = Seq::new(x.len(), |i: int| x[i]->Ok_0);
                    assert(values =~= Seq::new(y.len(), |i: int| y[i]->Ok_0));
                    assert(rank::is_hits(after, list, values, top_k as int, hits));
                }
            }
        }
        assert(answer::is_answer(
            after,
            *kernels.dot,
            *kernels.greater,
            *kernels.add,
            unit,
            segments.objects@,
            ranking,
            top_k,
            budget,
            r,
        ));
    }
}

/// What is kept of a document at a position can be read, unless its encoding lies not
/// aligned in memory.
proof fn lemma_kept_is_readable<A: Fn(Score, Score) -> Score>(
    index: MultiVectorIndex,
    objects: Seq<u8>,
    fde: Seq<u8>,
    add: A,
    document: int,
)
    requires
        index.ok(),
        all_kept(index.config, index.state@, objects, fde, add),
        0 <= document < index.state.documents.ids().len(),
    ensures
        objects.len() > 0,
        fde.len() > 0,
        index.state@.documents.dom().contains(index.state.documents.ids()[document]),
        index.state@.documents[index.state.documents.ids()[document]] == index.state.documents.values@[document]@,
        forall|e: StorageError| #[trigger]
            answer::is_refused(
                fde,
                index.state.documents.values@[document].fde_location,
                index.config.encoding_dimension(),
                e,
            ) ==> e == StorageError::FdeUnaligned,
        storage::record_error(objects.len(), index.state.documents.values@[document].location) is None,
        storage::decode_error(
            storage::record(objects, index.state.documents.values@[document].location),
            index.state@.codebook,
            index.state@.residual_codebook.len(),
        ) is None,
{
    let id = index.state.documents.ids()[document];
    index.state.documents.lemma_entry(document);
    assert(index.state@.documents.dom().contains(id));
    let record = index.state@.documents[id];
    assert(is_kept(index.config, index.state@, record, objects, fde, add));
    assemble::lemma_dimension_positive(index.config);
    assert(storage::record(objects, record.location).len() >= 16);
}

/// While the segments keep all documents, a query that is well made fails only where an
/// encoding lies not aligned in memory.
pub proof fn law_kept_documents_answer_queries<N, D, G, A, B>(
    index: MultiVectorIndex,
    kernels: Kernels<'_, N, D, G, A>,
    encoder: FdeEncoder,
    vectors: Seq<Seq<Score>>,
    segments: Segments<'_>,
    top_k: usize,
    candidates: Option<usize>,
    add: B,
    e: IndexError,
) where
    N: Fn(&[Score]) -> Vec<Score>,
    D: Fn(&[Score], &[Score]) -> Score,
    G: Fn(Score, Score) -> Score,
    A: Fn(Score, Score) -> Score,
    B: Fn(Score, Score) -> Score,

    requires
        index.ok(),
        all_kept(index.config, index.state@, segments.objects@, segments.fde@, add),
        index.takes(vectors),
        top_k > 0,
        answer::is_query(
            index,
            kernels,
            encoder,
            vectors,
            segments,
            top_k,
            candidates,
            Err::<Seq<Hit>, IndexError>(e),
        ),
    ensures
        e == IndexError::Io(StorageError::FdeUnaligned),
{
    let query = answer::encoded(*kernels.normalize, *kernels.dot, *kernels.add, encoder, vectors);
    let unit = late::normalized_rows(*kernels.normalize, vectors);
    let budget = config::candidate_budget(top_k, candidates);
    let places = answer::locations(index);
    let n = index.state.documents.ids().len();
    assert(places.len() == n);
    if n > 0 {
        lemma_kept_is_readable(index, segments.objects@, segments.fde@, add, 0);
    }
    let ranking = choose|ranking: Result<Seq<(u64, Score)>, IndexError>|
        #[trigger] answer::is_exact_ranking(
            index,
            *kernels.dot,
            query,
            segments.fde@,
            Some(budget as usize),
            ranking,
        ) && answer::is_answer(
            index,
            *kernels.dot,
            *kernels.greater,
            *kernels.add,
            unit,
            segments.objects@,
            ranking,
            top_k,
            budget,
            Err::<Seq<Hit>, IndexError>(e),
        );
    match ranking {
        Err(refused) => {
            let found = choose|found: Result<Seq<Score>, StorageError>|
                #[trigger] answer::are_scores(
                    *kernels.dot,
                    query,
                    segments.fde@,
                    places,
                    index.config.encoding_dimension(),
                    found,
                ) && ranking == match found {
                    Err(e) => Err::<Seq<(u64, Score)>, IndexError>(IndexError::Io(e)),
                    Ok(scores) => Ok(
                        order::ranking(rank::positioned(scores)).take(
                            rank::at_most(budget as usize as int, scores.len()),
                        ),
                    ),
                };
            let failure = found->Err_0;
            let i = choose|i: int|
                0 <= i < places.len() && answer::is_refused(
                    segments.fde@,
                    #[trigger] places[i],
                    index.config.encoding_dimension(),
                    failure,
                );
            lemma_kept_is_readable(index, segments.objects@, segments.fde@, add, i);
            assert(places[i] == index.state.documents.values@[i].fde_location);
        },
        Ok(list) => {
            nearest::law_exact_candidates(index, *kernels.dot, query, segments.fde@, Some(budget as usize), list);
            let scores = answer::exact_scores(
                index,
                *kernels.dot,
                *kernels.greater,
                *kernels.add,
                unit,
                segments.objects@,
                list,
                budget,
            );
            let i = choose|i: int|
                0 <= i < scores.len() && (#[trigger] scores[i]) is Err && e == IndexError::Io(scores[i]->Err_0);
            assert(list[i].0 < n);
            lemma_kept_is_readable(index, segments.objects@, segments.fde@, add, list[i].0 as int);
        },
    }
}

/// While the segments keep all documents, a ranking over a current graph fails only
/// where an encoding lies not aligned in memory.
pub proof fn law_kept_documents_are_ranked<D: Fn(&[Score], &[Score]) -> Score, B: Fn(Score, Score) -> Score>(
    index: MultiVectorIndex,
    dot: D,
    query: Seq<Score>,
    objects: Seq<u8>,
    fde: Seq<u8>,
    count: usize,
    ef_search: usize,
    add: B,
    e: IndexError,
)
    requires
        index.ok(),
        index.state@.fde_ann is Some,
        nearest::is_current(index.config, index.state@, fde),
        all_kept(index.config, index.state@, objects, fde, add),
        query.len() == index.config.encoding_dimension(),
        answer::is_ann_ranking(
            index,
            dot,
            query,
            fde,
            count,
            ef_search,
            Err::<Seq<(u64, Score)>, IndexError>(e),
        ),
    ensures
        e == IndexError::Io(StorageError::FdeUnaligned),
{
    let failed = Err::<Seq<(u64, Score)>, IndexError>(e);
    nearest::law_graph_candidates(index, dot, query, fde, count, ef_search, failed);
    let ann = index.state.fde_ann->0;
    let names = ann.delta.ids();
    let i = if fde.len() == 0 {
        0
    } else {
        choose|i: int|
            0 <= i < names.len() && answer::is_refused(
                fde,
                index.state@.documents[#[trigger] names[i]].fde_location,
                index.config.encoding_dimension(),
                e->Io_0,
            )
    };
    ann.delta.lemma_entry(i);
    assert(ann@.delta.contains(names[i]));
    assert(index.state@.documents.dom().contains(names[i]));
    let document = index.state.documents.lemma_position(names[i]);
    lemma_kept_is_readable(index, objects, fde, add, document);
}

} // verus!
