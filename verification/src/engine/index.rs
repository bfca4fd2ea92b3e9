//! The index: opening it, changing it, and ranking its documents.

use vstd::prelude::*;
use crate::arith;
use crate::config;
use crate::config::{Durability, IndexConfig, IndexError, Reason};
use crate::engine::manifest;
use crate::engine::manifest::{Manifest, SegmentBoundaries};
use crate::engine::state;
use crate::engine::state::{DocumentRecord, RecordView, State};
use crate::error::StorageError;
use crate::ids;
use crate::ids::{IdMap, IdSet};
use crate::order;
use crate::score::Score;
use crate::storage;

verus! {

/// An index of documents.
pub struct MultiVectorIndex {
    pub config: IndexConfig,
    pub durability: Durability,
    pub fde_encoding_version: u32,
    pub state: State,
}

impl MultiVectorIndex {
    /// Whether the index is as every operation finds and leaves it.
    pub open spec fn ok(&self) -> bool {
        &&& self.config.valid()
        &&& self.state.ok()
        &&& self.state@.wf()
        &&& config::codebooks_shaped(
            self.config,
            self.state@.codebook,
            self.state@.residual_codebook,
            self.state.documents.ids().len() > 0,
        )
        &&& state::graph_fits(self.state@.fde_ann, self.config.encoding_dimension())
    }
}

/// The boundaries that a manifest, or its absence, puts to segments of these
/// lengths.
pub open spec fn boundaries_of(manifest: Option<(Manifest, bool)>, objects: nat, fde: nat) -> SegmentBoundaries {
    match manifest {
        None => SegmentBoundaries { objects: 0, fde: 0 },
        Some((m, _)) => match m.segments {
            Some(b) => b,
            None => SegmentBoundaries { objects: objects as u64, fde: fde as u64 },
        },
    }
}

/// Why an index cannot be opened, before its documents are looked at.
pub open spec fn open_error(
    c: IndexConfig,
    manifest: Option<(Manifest, bool)>,
    objects: nat,
    fde: nat,
) -> Option<IndexError> {
    if !c.in_range() {
        Some(IndexError::Invalid(Reason::ConfigShape))
    } else if !c.within_limits() {
        Some(IndexError::Invalid(Reason::ConfigSize))
    } else {
        match manifest {
            None => if objects != 0 || fde != 0 {
                Some(IndexError::Invalid(Reason::MissingManifest))
            } else {
                None
            },
            Some((m, checksummed)) => {
                let b = boundaries_of(manifest, objects, fde);
                if m.format_version != (if checksummed {
                    manifest::FORMAT_VERSION
                } else {
                    1u32
                }) || (checksummed && m.segments is None) {
                    Some(IndexError::Invalid(Reason::ManifestVersion))
                } else if m.config != c {
                    Some(IndexError::Config { actual: m.config, requested: c })
                } else if m.fde_encoding_version != 1 && m.fde_encoding_version != 2 {
                    Some(IndexError::Invalid(Reason::FdeVersion(m.fde_encoding_version)))
                } else if !config::codebooks_valid(
                    c,
                    arith::rows(m.codebook@),
                    m.residual_codebook@,
                    m.documents.ids().len() > 0,
                ) {
                    Some(IndexError::Invalid(Reason::Codebook))
                } else if objects < b.objects || fde < b.fde {
                    Some(IndexError::Invalid(Reason::ShortSegment))
                } else if m.documents.ids().len() > 0 && objects == 0 {
                    Some(IndexError::Io(StorageError::EmptyVectorSegment))
                } else if m.documents.ids().len() > 0 && fde == 0 {
                    Some(IndexError::Io(StorageError::EmptyFdeSegment))
                } else {
                    None
                }
            },
        }
    }
}

/// Whether two records agree but for the digests, and the second has the digests
/// of what the segments hold.
pub open spec fn resealed(before: RecordView, after: RecordView, objects: Seq<u8>, fde: Seq<u8>) -> bool {
    &&& after.centroid_ids == before.centroid_ids
    &&& after.unique_centroids == before.unique_centroids
    &&& after.metadata == before.metadata
    &&& after.tokens == before.tokens
    &&& after.compressed_bytes == before.compressed_bytes
    &&& after.location.offset == before.location.offset
    &&& after.location.length == before.location.length
    &&& after.fde_location.offset == before.fde_location.offset
    &&& after.fde_location.length == before.fde_location.length
    &&& after.location.checksum is Some
    &&& after.location.checksum->0@ == storage::blake3_digest(storage::record(objects, before.location))
    &&& after.fde_location.checksum is Some
    &&& after.fde_location.checksum->0@ == storage::blake3_digest(storage::record(fde, before.fde_location))
}

/// The postings of documents.
fn build_postings(documents: &IdMap<DocumentRecord>, centroids: usize) -> (r: Vec<IdSet>)
    requires
        documents.wf(),
        centroids <= u32::MAX,
        forall|i: int|
            0 <= i < documents.values@.len() ==> state::record_fits((#[trigger] documents.values@[i])@, centroids as nat),
    ensures
        r@.len() == centroids,
        forall|c: int| 0 <= c < r@.len() ==> (#[trigger] r@[c]).wf(),
        forall|c: int, id: Seq<char>|
            0 <= c < r@.len() ==> (#[trigger] state::id_set(r@[c]).contains(id) <==> state::records(
                *documents,
            ).dom().contains(id) && state::records(*documents)[id].unique_centroids.contains(c as u32)),
{
    let mut postings: Vec<IdSet> = Vec::new();
    let mut c: usize = 0;
    while c < centroids
        invariant
            c <= centroids,
            postings@.len() == c,
            forall|k: int|
                0 <= k < c ==> (#[trigger] postings@[k]).wf() && state::id_set(postings@[k]) == Set::<Seq<char>>::empty(),
        decreases centroids - c,
    {
        let empty: IdSet = IdMap::new();
        assert(state::id_set(empty) =~= Set::<Seq<char>>::empty());
        postings.push(empty);
        c += 1;
    }
    let ghost docs = state::records(*documents);
    let mut i: usize = 0;
    while i < documents.keys.len()
        invariant
            documents.wf(),
            docs == state::records(*documents),
            centroids <= u32::MAX,
            i <= documents.keys@.len(),
            postings@.len() == centroids,
            forall|k: int|
                0 <= k < documents.values@.len() ==> state::record_fits(
                    (#[trigger] documents.values@[k])@,
                    centroids as nat,
                ),
            forall|k: int| 0 <= k < centroids ==> (#[trigger] postings@[k]).wf(),
            forall|k: int, id: Seq<char>|
                0 <= k < centroids ==> (#[trigger] state::id_set(postings@[k]).contains(id) <==> exists|n: int|
                    0 <= n < i && #[trigger] documents.ids()[n] == id && documents.values@[n]@.unique_centroids.contains(
                        k as u32,
                    )),
        decreases documents.keys@.len() - i,
    {
        let ghost before = postings@;
        proof {
            state::lemma_unique_in_range(documents.values@[i as int]@, centroids as nat);
        }
        state::post(&mut postings, documents.values[i].unique_centroids.as_slice(), &documents.keys[i]);
        proof {
            assert forall|k: int, id: Seq<char>| 0 <= k < centroids implies (#[trigger] state::id_set(
                postings@[k],
            ).contains(id) <==> exists|n: int|
                0 <= n < i + 1 && #[trigger] documents.ids()[n] == id && documents.values@[n]@.unique_centroids.contains(
                    k as u32,
                )) by {
                let here = documents.values@[i as int]@.unique_centroids.contains(k as u32);
                assert(state::id_set(postings@[k]) == if here {
                    state::id_set(before[k]).insert(documents.ids()[i as int])
                } else {
                    state::id_set(before[k])
                });
                if state::id_set(postings@[k]).contains(id) {
                    if state::id_set(before[k]).contains(id) {
                        let n = choose|n: int|
                            0 <= n < i && #[trigger] documents.ids()[n] == id
                                && documents.values@[n]@.unique_centroids.contains(k as u32);
                        assert(0 <= n < i + 1 && documents.ids()[n] == id);
                    } else {
                        assert(documents.ids()[i as int] == id);
                    }
                }
                if exists|n: int|
                    0 <= n < i + 1 && #[trigger] documents.ids()[n] == id
                        && documents.values@[n]@.unique_centroids.contains(k as u32) {
                    let n = choose|n: int|
                        0 <= n < i + 1 && #[trigger] documents.ids()[n] == id
                            && documents.values@[n]@.unique_centroids.contains(k as u32);
                    if n < i {
                        assert(state::id_set(before[k]).contains(id));
                    }
                }
            }
        }
        i += 1;
    }
    proof {
        assert forall|k: int, id: Seq<char>| 0 <= k < centroids implies (#[trigger] state::id_set(postings@[k]).contains(
            id,
        ) <==> docs.dom().contains(id) && docs[id].unique_centroids.contains(k as u32)) by {
            if state::id_set(postings@[k]).contains(id) {
                let n = choose|n: int|
                    0 <= n < i && #[trigger] documents.ids()[n] == id
                        && documents.values@[n]@.unique_centroids.contains(k as u32);
                documents.lemma_entry(n);
            }
            if docs.dom().contains(id) && docs[id].unique_centroids.contains(k as u32) {
                let n = documents.lemma_position(id);
                assert(documents.ids()[n] == id);
            }
        }
    }
    postings
}

/// Whether a document passes what opening asks of it.
pub open spec fn document_passes<A: Fn(Score, Score) -> Score>(
    m: Manifest,
    position: int,
    objects: Seq<u8>,
    fde: Seq<u8>,
    checksummed: bool,
    add: A,
) -> bool {
    &&& manifest::document_error(
        m.config,
        arith::rows(m.codebook@),
        m.residual_codebook@,
        m.documents.values@[position]@,
        objects,
        fde,
        checksummed,
        add,
    ) is None
    &&& manifest::encoding_is(fde, m.documents.values@[position]@.fde_location, true)
}

/// Whether a document may be refused with an error: the one that its bytes call
/// for, or, where they call for none, that its encoding is not aligned or, in one
/// of the two byte orders, not finite.
pub open spec fn document_refused<A: Fn(Score, Score) -> Score>(
    m: Manifest,
    position: int,
    objects: Seq<u8>,
    fde: Seq<u8>,
    checksummed: bool,
    add: A,
    e: IndexError,
) -> bool {
    match manifest::document_error(
        m.config,
        arith::rows(m.codebook@),
        m.residual_codebook@,
        m.documents.values@[position]@,
        objects,
        fde,
        checksummed,
        add,
    ) {
        Some(certain) => e == certain,
        None => e == IndexError::Io(StorageError::FdeUnaligned) || (e == IndexError::Invalid(Reason::NonFiniteFde)
            && manifest::encoding_is(fde, m.documents.values@[position]@.fde_location, false)),
    }
}

impl MultiVectorIndex {
    /// Opens an index with every commit synced.
    pub fn open<A: Fn(Score, Score) -> Score>(
        c: IndexConfig,
        manifest: Option<(Manifest, bool)>,
        objects: &[u8],
        fde: &[u8],
        add: &A,
    ) -> (r: Result<(MultiVectorIndex, SegmentBoundaries), IndexError>)
        requires
            arith::is_binary(*add),
            manifest matches Some((m, _)) ==> m.documents.wf(),
        ensures
            opened(c, Durability::Fsync, manifest, objects@, fde@, *add, r),
    {
        Self::open_with_durability(c, Durability::Fsync, manifest, objects, fde, add)
    }

    /// Opens an index from its manifest, if it has one (and whether an envelope
    /// held it), and the bytes of its segments. Gives the index and the lengths to
    /// which the segments are to be cut back.
    pub fn open_with_durability<A: Fn(Score, Score) -> Score>(
        c: IndexConfig,
        durability: Durability,
        manifest: Option<(Manifest, bool)>,
        objects: &[u8],
        fde: &[u8],
        add: &A,
    ) -> (r: Result<(MultiVectorIndex, SegmentBoundaries), IndexError>)
        requires
            arith::is_binary(*add),
            manifest matches Some((m, _)) ==> m.documents.wf(),
        ensures
            opened(c, durability, manifest, objects@, fde@, *add, r),
    {
        if let Err(e) = c.validate() {
            return Err(e);
        }
        match manifest {
            None => {
                if objects.len() != 0 || fde.len() != 0 {
                    return Err(IndexError::Invalid(Reason::MissingManifest));
                }
                let state = State {
                    generation: 0,
                    codebook: Vec::new(),
                    residual_codebook: Vec::new(),
                    documents: IdMap::new(),
                    postings: Vec::new(),
                    fde_ann: None,
                };
                proof {
                    assert(state::records(state.documents) =~= Map::<Seq<char>, RecordView>::empty());
                }
                Ok((
                    MultiVectorIndex { config: c, durability, fde_encoding_version: 2, state },
                    SegmentBoundaries { objects: 0, fde: 0 },
                ))
            },
            Some((m, checksummed)) => Self::open_manifest(c, durability, m, checksummed, objects, fde, add),
        }
    }

    fn open_manifest<A: Fn(Score, Score) -> Score>(
        c: IndexConfig,
        durability: Durability,
        m: Manifest,
        checksummed: bool,
        objects: &[u8],
        fde: &[u8],
        add: &A,
    ) -> (r: Result<(MultiVectorIndex, SegmentBoundaries), IndexError>)
        requires
            c.valid(),
            arith::is_binary(*add),
            m.documents.wf(),
        ensures
            opened(c, durability, Some((m, checksummed)), objects@, fde@, *add, r),
    {
        let ghost source = Some((m, checksummed));
        let version: u32 = if checksummed {
            manifest::FORMAT_VERSION
        } else {
            1
        };
        if m.format_version != version || (checksummed && m.segments.is_none()) {
            return Err(IndexError::Invalid(Reason::ManifestVersion));
        }
        if m.config != c {
            return Err(IndexError::Config { actual: m.config, requested: c });
        }
        if m.fde_encoding_version != 1 && m.fde_encoding_version != 2 {
            return Err(IndexError::Invalid(Reason::FdeVersion(m.fde_encoding_version)));
        }
        if let Err(e) = config::validate_codebooks(
            &c,
            m.codebook.as_slice(),
            m.residual_codebook.as_slice(),
            !m.documents.is_empty(),
        ) {
            return Err(e);
        }
        let boundaries: SegmentBoundaries = match m.segments {
            Some(b) => b,
            None => SegmentBoundaries { objects: objects.len() as u64, fde: fde.len() as u64 },
        };
        assert(boundaries == boundaries_of(source, objects@.len(), fde@.len()));
        if (objects.len() as u64) < boundaries.objects || (fde.len() as u64) < boundaries.fde {
            return Err(IndexError::Invalid(Reason::ShortSegment));
        }
        if !m.documents.is_empty() {
            if objects.len() == 0 {
                return Err(IndexError::Io(StorageError::EmptyVectorSegment));
            }
            if fde.len() == 0 {
                return Err(IndexError::Io(StorageError::EmptyFdeSegment));
            }
        }
        let object_bytes: &[u8] = &objects[0..boundaries.objects as usize];
        let fde_bytes: &[u8] = &fde[0..boundaries.fde as usize];
        let ghost cut_objects = objects@.take(boundaries.objects as int);
        let ghost cut_fde = fde@.take(boundaries.fde as int);
        assert(object_bytes@ =~= cut_objects && fde_bytes@ =~= cut_fde);
        let mut sealed: Vec<DocumentRecord> = Vec::new();
        let mut i: usize = 0;
        while i < m.documents.values.len()
            invariant
                c.valid(),
                m.config == c,
                arith::is_binary(*add),
                m.documents.wf(),
                object_bytes@ == cut_objects,
                fde_bytes@ == cut_fde,
                i <= m.documents.values@.len(),
                sealed@.len() == i,
                source == Some((m, checksummed)),
                boundaries == boundaries_of(source, objects@.len(), fde@.len()),
                cut_objects == objects@.take(boundaries.objects as int),
                cut_fde == fde@.take(boundaries.fde as int),
                open_error(c, source, objects@.len(), fde@.len()) is None,
                forall|k: int| 0 <= k < i ==> #[trigger] document_passes(m, k, cut_objects, cut_fde, checksummed, *add),
                forall|k: int|
                    0 <= k < i ==> resealed(m.documents.values@[k]@, (#[trigger] sealed@[k])@, cut_objects, cut_fde),
            decreases m.documents.values@.len() - i,
        {
            let record: &DocumentRecord = &m.documents.values[i];
            if let Err(e) = manifest::check_document(
                &c,
                m.codebook.as_slice(),
                m.residual_codebook.as_slice(),
                record,
                object_bytes,
                fde_bytes,
                checksummed,
                add,
            ) {
                assert(document_refused(m, i as int, cut_objects, cut_fde, checksummed, *add, e));
                return Err(e);
            }
            assert(document_passes(m, i as int, cut_objects, cut_fde, checksummed, *add));
            let mut fresh: DocumentRecord = state::copy_record(record);
            if let Ok(bytes) = storage::record_bytes(object_bytes, record.location) {
                fresh.location.checksum = Some(storage::blake3_hash(bytes));
            }
            if let Ok(bytes) = storage::record_bytes(fde_bytes, record.fde_location) {
                fresh.fde_location.checksum = Some(storage::blake3_hash(bytes));
            }
            sealed.push(fresh);
            i += 1;
        }
        let ghost names = m.documents.ids();
        let documents: IdMap<DocumentRecord> = IdMap { keys: m.documents.keys, values: sealed };
        proof {
            assert(documents.ids() == names);
            assert(documents.wf());
            assert forall|k: int| 0 <= k < documents.values@.len() implies state::record_fits(
                (#[trigger] documents.values@[k])@,
                m.codebook@.len(),
            ) by {
                assert(document_passes(m, k, cut_objects, cut_fde, checksummed, *add));
                assert(resealed(m.documents.values@[k]@, documents.values@[k]@, cut_objects, cut_fde));
            }
            assert(m.codebook@.len() <= u32::MAX);
        }
        let postings: Vec<IdSet> = build_postings(&documents, m.codebook.len());
        let state = State {
            generation: m.generation,
            codebook: m.codebook,
            residual_codebook: m.residual_codebook,
            documents,
            postings,
            fde_ann: None,
        };
        proof {
            let docs = state@.documents;
            assert forall|id: Seq<char>| #[trigger] docs.dom().contains(id) implies state::record_fits(
                docs[id],
                state@.codebook.len(),
            ) by {
                let k = state.documents.lemma_position(id);
            }
            assert forall|p: int, id: Seq<char>| 0 <= p < state@.postings.len() implies (#[trigger] state@.postings[p].contains(
                id,
            ) <==> docs.dom().contains(id) && docs[id].unique_centroids.contains(p as u32)) by {
                assert(state@.postings[p] == state::id_set(state.postings@[p]));
            }
            assert(state@.wf());
        }
        Ok((MultiVectorIndex { config: c, durability, fde_encoding_version: m.fde_encoding_version, state }, boundaries))
    }
}

/// What opening an index gives.
///
/// A manifest's documents are looked at in the order of their ids; the first that
/// does not pass decides the error.
pub open spec fn opened<A: Fn(Score, Score) -> Score>(
    c: IndexConfig,
    durability: Durability,
    manifest: Option<(Manifest, bool)>,
    objects: Seq<u8>,
    fde: Seq<u8>,
    add: A,
    r: Result<(MultiVectorIndex, SegmentBoundaries), IndexError>,
) -> bool {
    let b = boundaries_of(manifest, objects.len(), fde.len());
    let cut_objects = objects.take(b.objects as int);
    let cut_fde = fde.take(b.fde as int);
    match open_error(c, manifest, objects.len(), fde.len()) {
        Some(e) => r == Err::<(MultiVectorIndex, SegmentBoundaries), IndexError>(e),
        None => match r {
            Ok((index, boundaries)) => {
                &&& index.ok()
                &&& index.config == c
                &&& index.durability == durability
                &&& index.state.fde_ann is None
                &&& boundaries == b
                &&& match manifest {
                    None => {
                        &&& index.fde_encoding_version == 2
                        &&& index.state.generation == 0
                        &&& index.state@.codebook.len() == 0
                        &&& index.state@.residual_codebook.len() == 0
                        &&& index.state.documents.ids().len() == 0
                    },
                    Some((m, checksummed)) => {
                        &&& index.fde_encoding_version == m.fde_encoding_version
                        &&& index.state.generation == m.generation
                        &&& index.state@.codebook == arith::rows(m.codebook@)
                        &&& index.state@.residual_codebook == m.residual_codebook@
                        &&& index.state.documents.ids() == m.documents.ids()
                        &&& forall|k: int|
                            0 <= k < m.documents.values@.len() ==> #[trigger] document_passes(
                                m,
                                k,
                                cut_objects,
                                cut_fde,
                                checksummed,
                                add,
                            )
                        &&& forall|k: int|
                            0 <= k < m.documents.values@.len() ==> resealed(
                                (#[trigger] m.documents.values@[k])@,
                                index.state.documents.values@[k]@,
                                cut_objects,
                                cut_fde,
                            )
                    },
                }
            },
            Err(e) => manifest matches Some((m, checksummed)) && exists|k: int|
                {
                    &&& 0 <= k < m.documents.values@.len()
                    &&& #[trigger] document_refused(m, k, cut_objects, cut_fde, checksummed, add, e)
                    &&& forall|j: int|
                        0 <= j < k ==> #[trigger] document_passes(m, j, cut_objects, cut_fde, checksummed, add)
                },
        },
    }
}

} // verus!
