//! What is written down of a generation, and what a reader finds of it.

use vstd::prelude::*;
use vstd::arithmetic::power2::pow2;
use crate::arith;
use crate::config::{Durability, IndexError};
use crate::engine::index;
use crate::engine::index::MultiVectorIndex;
use crate::engine::manifest;
use crate::engine::manifest::{Manifest, SegmentBoundaries};
use crate::engine::stage;
use crate::engine::stage::{Encoding, UpsertDocument, Write};
use crate::engine::state;
use crate::engine::state::{State, StateView};
use crate::engine::update::StagedDocument;
use crate::muvera::FdeEncoder;
use crate::score;
use crate::score::Score;
use crate::storage;
use crate::storage::ObjectLocation;

verus! {

impl MultiVectorIndex {
    /// Whether a manifest is that of a state, with segments of these lengths.
    pub open spec fn describes(&self, m: Manifest, s: StateView, boundaries: SegmentBoundaries) -> bool {
        &&& m.format_version == manifest::FORMAT_VERSION
        &&& m.generation == s.generation
        &&& m.fde_encoding_version == self.fde_encoding_version
        &&& m.config == self.config
        &&& arith::rows(m.codebook@) == s.codebook
        &&& m.residual_codebook@ == s.residual_codebook
        &&& m.documents.wf()
        &&& state::records(m.documents) == s.documents
        &&& m.segments == Some(boundaries)
    }

    /// The manifest of a state, with segments of these lengths.
    pub fn persist(&self, next: &State, boundaries: SegmentBoundaries) -> (r: Manifest)
        requires
            next.ok(),
        ensures
            self.describes(r, next@, boundaries),
    {
        let copy: State = next.copy();
        Manifest {
            format_version: manifest::FORMAT_VERSION,
            generation: copy.generation,
            fde_encoding_version: self.fde_encoding_version,
            config: self.config,
            codebook: copy.codebook,
            residual_codebook: copy.residual_codebook,
            documents: copy.documents,
            segments: Some(boundaries),
        }
    }
}

/// Opening an index from the manifest of a state gives that state back, without
/// the graph.
pub proof fn law_reopening_gives_back_the_state<A: Fn(Score, Score) -> Score>(
    before: MultiVectorIndex,
    s: StateView,
    m: Manifest,
    boundaries: SegmentBoundaries,
    durability: Durability,
    objects: Seq<u8>,
    fde: Seq<u8>,
    add: A,
    after: MultiVectorIndex,
    cut: SegmentBoundaries,
)
    requires
        s.wf(),
        before.describes(m, s, boundaries),
        index::opened(
            before.config,
            durability,
            Some((m, true)),
            objects,
            fde,
            add,
            Ok::<(MultiVectorIndex, SegmentBoundaries), IndexError>((after, cut)),
        ),
    ensures
        after.state@ == (StateView { fde_ann: None, ..s }),
        after.config == before.config,
        after.fde_encoding_version == before.fde_encoding_version,
        cut == boundaries,
{
    let cut_objects = objects.take(boundaries.objects as int);
    let cut_fde = fde.take(boundaries.fde as int);
    let names = m.documents.ids();
    assert(index::open_error(before.config, Some((m, true)), objects.len(), fde.len()) is None);
    assert forall|k: int| 0 <= k < names.len() implies #[trigger] after.state.documents.values@[k]@
        == m.documents.values@[k]@ by {
        assert(index::document_passes(m, k, cut_objects, cut_fde, true, add));
        assert(index::resealed(
            m.documents.values@[k]@,
            after.state.documents.values@[k]@,
            cut_objects,
            cut_fde,
        ));
        let x = m.documents.values@[k]@;
        let y = after.state.documents.values@[k]@;
        lemma_same_location(x.location, y.location);
        lemma_same_location(x.fde_location, y.fde_location);
        assert(x =~= y);
    }
    let docs = after.state@.documents;
    assert forall|id: Seq<char>| #[trigger] docs.dom().contains(id) <==> s.documents.dom().contains(id) by {
        if docs.dom().contains(id) {
            let k = after.state.documents.lemma_position(id);
            m.documents.lemma_entry(k);
        }
        if s.documents.dom().contains(id) {
            assert(state::records(m.documents).dom().contains(id));
            let k = m.documents.lemma_position(id);
            after.state.documents.lemma_entry(k);
        }
    }
    assert forall|id: Seq<char>| #[trigger] docs.dom().contains(id) implies docs[id] == s.documents[id] by {
        let k = after.state.documents.lemma_position(id);
        after.state.documents.lemma_entry(k);
        m.documents.lemma_entry(k);
        assert(state::records(m.documents)[id] == m.documents.values@[k]@);
    }
    assert(docs =~= s.documents);
    assert forall|c: int| 0 <= c < s.postings.len() implies #[trigger] after.state@.postings[c] == s.postings[c] by {
        assert forall|id: Seq<char>| #[trigger] after.state@.postings[c].contains(id) <==> s.postings[c].contains(id) by {
        }
        assert(after.state@.postings[c] =~= s.postings[c]);
    }
    assert(after.state@.postings =~= s.postings);
    assert(after.state@ =~= (StateView { fde_ann: None, ..s }));
}

proof fn lemma_same_location(a: ObjectLocation, b: ObjectLocation)
    requires
        a.offset == b.offset,
        a.length == b.length,
        a.checksum is Some,
        b.checksum is Some,
        a.checksum->0@ == b.checksum->0@,
    ensures
        a == b,
{
    assert(a.checksum->0 =~= b.checksum->0);
}

/// The bytes that writes append to the objects, one after another.
pub open spec fn appended_objects(writes: Seq<Write>) -> Seq<u8>
    decreases writes.len(),
{
    if writes.len() == 0 {
        Seq::empty()
    } else {
        appended_objects(writes.drop_last()) + writes.last().objects@
    }
}

/// The bytes that writes append to the encodings, one after another.
pub open spec fn appended_fde(writes: Seq<Write>) -> Seq<u8>
    decreases writes.len(),
{
    if writes.len() == 0 {
        Seq::empty()
    } else {
        appended_fde(writes.drop_last()) + writes.last().fde@
    }
}

proof fn lemma_appended(writes: Seq<Write>, i: int)
    requires
        0 <= i < writes.len(),
    ensures
        appended_objects(writes).len() == stage::objects_length(writes),
        appended_fde(writes).len() == stage::fde_length(writes),
        stage::objects_length(writes.take(i)) + writes[i].objects@.len() <= stage::objects_length(writes),
        stage::fde_length(writes.take(i)) + writes[i].fde@.len() <= stage::fde_length(writes),
        appended_objects(writes).subrange(
            stage::objects_length(writes.take(i)) as int,
            (stage::objects_length(writes.take(i)) + writes[i].objects@.len()) as int,
        ) == writes[i].objects@,
        appended_fde(writes).subrange(
            stage::fde_length(writes.take(i)) as int,
            (stage::fde_length(writes.take(i)) + writes[i].fde@.len()) as int,
        ) == writes[i].fde@,
    decreases writes.len(),
{
    let front = writes.drop_last();
    let o = stage::objects_length(writes.take(i)) as int;
    let f = stage::fde_length(writes.take(i)) as int;
    let to = o + writes[i].objects@.len();
    let end = f + writes[i].fde@.len();
    if i < front.len() {
        lemma_appended(front, i);
        assert(front.take(i) =~= writes.take(i));
        assert(appended_objects(writes).subrange(o, to) =~= appended_objects(front).subrange(o, to));
        assert(appended_fde(writes).subrange(f, end) =~= appended_fde(front).subrange(f, end));
    } else {
        if front.len() > 0 {
            lemma_appended(front, 0);
        }
        assert(front =~= writes.take(i));
        assert(appended_objects(front).len() == o);
        assert(appended_fde(front).len() == f);
        assert(appended_objects(writes) == appended_objects(front) + writes[i].objects@);
        assert(appended_fde(writes) == appended_fde(front) + writes[i].fde@);
        assert(appended_objects(writes).subrange(o, to) =~= writes[i].objects@);
        assert(appended_fde(writes).subrange(f, end) =~= writes[i].fde@);
    }
}

/// When a staged batch is appended to the segments, each of its documents is found
/// at its location, whole and with its digest; what stood in the segments before
/// stays where it was.
pub proof fn law_written_documents_are_found<N, D, L, G, A, V, W>(
    kernels: Encoding<'_, N, D, L, G, A, V, W>,
    index: MultiVectorIndex,
    encoder: FdeEncoder,
    batch: Seq<UpsertDocument>,
    staged: Seq<StagedDocument>,
    writes: Seq<Write>,
    objects: Seq<u8>,
    fde: Seq<u8>,
    i: int,
) where
    N: Fn(&[Score]) -> Vec<Score>,
    D: Fn(&[Score], &[Score]) -> Score,
    L: Fn(&[Score], &[Score]) -> Score,
    G: Fn(Score, Score, Score) -> Score,
    A: Fn(Score, Score) -> Score,
    V: Fn(Score, usize) -> Score,
    W: Fn(Score, usize) -> Score,

    requires
        kernels.stages_all(index, encoder, batch, objects.len(), fde.len(), staged, writes),
        0 <= i < batch.len(),
        objects.len() + appended_objects(writes).len() <= usize::MAX,
        fde.len() + appended_fde(writes).len() <= usize::MAX,
    ensures
        ({
            let objects_after = objects + appended_objects(writes);
            let fde_after = fde + appended_fde(writes);
            &&& storage::verify_error(objects_after, staged[i].location, true) is None
            &&& storage::record(objects_after, staged[i].location) == kernels.object(index, batch[i])
            &&& storage::verify_error(fde_after, staged[i].fde_location, true) is None
            &&& staged[i].fde_location.offset % 4 == 0
            &&& exists|little: bool|
                storage::is_image(
                    storage::record(fde_after, staged[i].fde_location),
                    kernels.encoding(encoder, batch[i]),
                    little,
                )
            &&& objects_after.take(objects.len() as int) == objects
            &&& fde_after.take(fde.len() as int) == fde
        }),
{
    let objects_after = objects + appended_objects(writes);
    let fde_after = fde + appended_fde(writes);
    lemma_appended(writes, i);
    let o = objects.len() + stage::objects_length(writes.take(i));
    let f = fde.len() + stage::fde_length(writes.take(i));
    assert(kernels.stages(index, encoder, batch[i], o, f, staged[i], writes[i]));
    let location = staged[i].location;
    let fde_location = staged[i].fde_location;
    let own = appended_objects(writes);
    let from = stage::objects_length(writes.take(i)) as int;
    assert(storage::record(objects_after, location) =~= own.subrange(from, from + writes[i].objects@.len()));
    let coded = appended_fde(writes);
    let start = stage::fde_length(writes.take(i)) as int;
    let pad = storage::padding(f) as int;
    let piece = coded.subrange(start, start + writes[i].fde@.len());
    assert(storage::record(fde_after, fde_location) =~= piece.skip(pad));
    assert(objects_after.take(objects.len() as int) =~= objects);
    assert(fde_after.take(fde.len() as int) =~= fde);
}

/// A written document decodes under the codebooks of its index: it has as many rows
/// as it had vectors, each with its nearest centroid and the nearest levels.
pub proof fn law_written_documents_decode<N, D, L, G, A, V, W>(
    kernels: Encoding<'_, N, D, L, G, A, V, W>,
    index: MultiVectorIndex,
    document: UpsertDocument,
) where
    N: Fn(&[Score]) -> Vec<Score>,
    D: Fn(&[Score], &[Score]) -> Score,
    L: Fn(&[Score], &[Score]) -> Score,
    G: Fn(Score, Score, Score) -> Score,
    A: Fn(Score, Score) -> Score,
    V: Fn(Score, usize) -> Score,
    W: Fn(Score, usize) -> Score,

    requires
        index.ok(),
        index.state@.codebook.len() > 0,
        0 < document.vectors@.len() <= u32::MAX,
        document.vectors@.len() * 4 + 16 <= usize::MAX,
        document.vectors@.len() * index.config.dimension * index.config.residual_bits + 7 <= usize::MAX,
    ensures
        ({
            let bytes = kernels.object(index, document);
            &&& storage::decode_error(bytes, index.state@.codebook, index.state@.residual_codebook.len()) is None
            &&& storage::le32_at(bytes, 0) == document.vectors@.len()
            &&& storage::le32_at(bytes, 4) == index.config.dimension
            &&& storage::record_ids(bytes) == kernels.centroids(index, document)
            &&& storage::record_codes(bytes) == storage::residual_codes(
                *kernels.gap,
                kernels.rows(document),
                kernels.centroids(index, document),
                index.state@.codebook,
                index.state@.residual_codebook,
                index.config.dimension as nat,
            )
        }),
{
    let c = index.config;
    let codebook = index.state@.codebook;
    let levels = index.state@.residual_codebook;
    let ids = kernels.centroids(index, document);
    let rows = kernels.rows(document);
    let dimension = c.dimension as nat;
    let codes = storage::residual_codes(*kernels.gap, rows, ids, codebook, levels, dimension);
    assert(c.dimension <= c.dimension * c.centroids) by (nonlinear_arith)
        requires
            c.centroids > 0,
            c.dimension > 0,
    ;
    vstd::arithmetic::power2::lemma_pow2_pos(c.residual_bits as nat);
    vstd::arithmetic::power2::lemma2_to64();
    if c.residual_bits < 8 {
        vstd::arithmetic::power2::lemma_pow2_strictly_increases(c.residual_bits as nat, 8);
    }
    assert forall|k: int| 0 <= k < codes.len() implies (#[trigger] codes[k] as nat) < pow2(c.residual_bits as nat) by {
        let value = rows[k / dimension as int][k % dimension as int];
        let center = codebook[ids[k / dimension as int] as int][k % dimension as int];
        let at = storage::lemma_first_least_exists(storage::gaps(*kernels.gap, value, center, levels));
        let code = storage::residual_code(*kernels.gap, value, center, levels);
        assert(score::is_first_least(storage::gaps(*kernels.gap, value, center, levels), code));
    }
    assert forall|i: int| 0 <= i < ids.len() implies storage::known_centroid(
        #[trigger] ids[i] as int,
        codebook,
        dimension,
    ) by {
        let all = crate::engine::train::distances(*kernels.distance, rows[i], codebook);
        let at = storage::lemma_first_least_exists(all);
        let near = crate::engine::train::nearest_center(*kernels.distance, rows[i], codebook);
        assert(score::is_first_least(all, near));
        assert(codebook[near].len() == dimension);
    }
    assert(codes.len() == ids.len() * dimension);
    storage::law_decode_of_put(c.dimension as u32, c.residual_bits, ids, codes, codebook);
}

} // verus!
