//! What an index writes down of itself, and what it checks on opening.

use vstd::prelude::*;
use crate::arith;
use crate::config;
use crate::config::{IndexConfig, IndexError, Reason};
use crate::engine::state;
use crate::engine::state::{DocumentRecord, RecordView};
use crate::error::StorageError;
use crate::ids::IdMap;
use crate::score;
use crate::score::Score;
use crate::storage;
use crate::storage::{CompressedVectorStore, FixedVectorStore, FlatVectors, ObjectLocation};

verus! {

/// The version of the manifests that are written.
pub const FORMAT_VERSION: u32 = 2;

/// How much of each segment is committed.
#[derive(Clone, Copy, Debug, PartialEq, Eq, Structural)]
pub struct SegmentBoundaries {
    pub objects: u64,
    pub fde: u64,
}

/// A manifest with its digest. Both are replaced in one step.
pub struct ManifestEnvelope {
    pub format_version: u32,
    pub checksum_blake3: String,
    pub manifest: String,
}

impl ManifestEnvelope {
    /// Whether the envelope has the current version and the digest of what it
    /// holds.
    pub open spec fn intact(&self) -> bool {
        &&& self.format_version == FORMAT_VERSION
        &&& self.checksum_blake3@ == storage::lower_hex(
            storage::blake3_digest(vstd::utf8::encode_utf8(self.manifest@)),
        )
    }

    /// Puts a manifest into an envelope.
    pub fn seal(manifest: String) -> (r: ManifestEnvelope)
        ensures
            r.intact(),
            r.manifest@ == manifest@,
    {
        let checksum_blake3: String = storage::digest_hex(storage::blake3_hash(manifest.as_str().as_bytes()));
        ManifestEnvelope { format_version: FORMAT_VERSION, checksum_blake3, manifest }
    }

    /// Refuses an envelope of another version, or with another digest than that of
    /// what it holds.
    pub fn verify(&self) -> (r: Result<(), IndexError>)
        ensures
            self.intact() ==> r is Ok,
            !self.intact() ==> r == Err::<(), IndexError>(IndexError::Invalid(Reason::EnvelopeMismatch)),
    {
        let actual: String = storage::digest_hex(storage::blake3_hash(self.manifest.as_str().as_bytes()));
        if self.format_version != FORMAT_VERSION || !(actual == self.checksum_blake3) {
            return Err(IndexError::Invalid(Reason::EnvelopeMismatch));
        }
        Ok(())
    }
}

/// Holds a manifest without an envelope to the digest that may stand beside it.
pub fn verify_manifest_checksum(manifest_bytes: &[u8], expected: Option<&String>) -> (r: Result<(), IndexError>)
    ensures
        expected is None ==> r is Ok,
        expected matches Some(text) ==> (if text@ == storage::lower_hex(storage::blake3_digest(manifest_bytes@)) {
            r is Ok
        } else {
            r == Err::<(), IndexError>(IndexError::Invalid(Reason::SidecarMismatch))
        }),
{
    match expected {
        None => Ok(()),
        Some(text) => {
            let actual: String = storage::digest_hex(storage::blake3_hash(manifest_bytes));
            if actual == *text {
                Ok(())
            } else {
                Err(IndexError::Invalid(Reason::SidecarMismatch))
            }
        },
    }
}

/// What a manifest says of an index.
pub struct Manifest {
    pub format_version: u32,
    pub generation: u64,
    pub fde_encoding_version: u32,
    pub config: IndexConfig,
    pub codebook: Vec<Vec<Score>>,
    pub residual_codebook: Vec<Score>,
    pub documents: IdMap<DocumentRecord>,
    pub segments: Option<SegmentBoundaries>,
}

/// The version of a manifest that names none.
pub fn current_format_version() -> (r: u32)
    ensures
        r == 1,
{
    1
}

/// The version of the encodings where a manifest names none.
pub fn legacy_fde_encoding_version() -> (r: u32)
    ensures
        r == 1,
{
    1
}

/// Why a document does not match the segments, as far as the segments' bytes
/// decide it.
pub open spec fn document_error<A: Fn(Score, Score) -> Score>(
    c: IndexConfig,
    codebook: Seq<Seq<Score>>,
    residuals: Seq<Score>,
    record: RecordView,
    objects: Seq<u8>,
    fde: Seq<u8>,
    checksummed: bool,
    add: A,
) -> Option<IndexError> {
    let bytes = storage::record(objects, record.location);
    let values = storage::decoded(add, bytes, codebook, residuals);
    match storage::verify_error(objects, record.location, checksummed) {
        Some(e) => Some(IndexError::Io(e)),
        None => match storage::verify_error(fde, record.fde_location, checksummed) {
            Some(e) => Some(IndexError::Io(e)),
            None => match storage::decode_error(bytes, codebook, residuals.len()) {
                Some(e) => Some(IndexError::Io(e)),
                None => if storage::le32_at(bytes, 4) != c.dimension || record.tokens == 0 || storage::le32_at(bytes, 0)
                    != record.tokens || record.centroid_ids.len() != record.tokens || record.compressed_bytes
                    != record.location.length || (exists|i: int|
                    0 <= i < record.centroid_ids.len() && #[trigger] record.centroid_ids[i] >= codebook.len()) || (exists|
                    i: int,
                |
                    0 <= i < values.len() && !score::finite(#[trigger] values[i])) {
                    Some(IndexError::Invalid(Reason::DocumentShape))
                } else if storage::record_ids(bytes) != record.centroid_ids {
                    Some(IndexError::Invalid(Reason::CentroidMismatch))
                } else if !state::is_sorted_unique(record.centroid_ids, record.unique_centroids) {
                    Some(IndexError::Invalid(Reason::PostingList))
                } else if record.fde_location.length != 4 * c.encoding_dimension() {
                    Some(IndexError::Io(StorageError::FdeLength))
                } else {
                    None
                },
            },
        },
    }
}

/// Whether the bytes of an encoding, read in one of the two byte orders, are
/// numbers that are all finite (`finite`), or not all.
pub open spec fn encoding_is(fde: Seq<u8>, location: ObjectLocation, finite: bool) -> bool {
    exists|words: Seq<Score>, little: bool|
        #[trigger] storage::is_image(storage::record(fde, location), words, little) && finite == (forall|i: int|
            0 <= i < words.len() ==> score::finite(#[trigger] words[i]))
}

fn same_ids(a: &[u32], b: &[u32]) -> (r: bool)
    ensures
        r == (a@ == b@),
{
    if a.len() != b.len() {
        return false;
    }
    let mut i: usize = 0;
    while i < a.len()
        invariant
            i <= a@.len(),
            a@.len() == b@.len(),
            forall|j: int| 0 <= j < i ==> a@[j] == b@[j],
        decreases a@.len() - i,
    {
        if a[i] != b[i] {
            assert(a@[i as int] != b@[i as int]);
            return false;
        }
        i += 1;
    }
    assert(a@ =~= b@);
    true
}

fn ids_below(all: &[u32], limit: usize) -> (r: bool)
    ensures
        r == (forall|i: int| 0 <= i < all@.len() ==> (#[trigger] all@[i]) < limit),
{
    let mut i: usize = 0;
    while i < all.len()
        invariant
            i <= all@.len(),
            forall|j: int| 0 <= j < i ==> (#[trigger] all@[j]) < limit,
        decreases all@.len() - i,
    {
        if all[i] as usize >= limit {
            return false;
        }
        i += 1;
    }
    true
}

/// Holds a document to the segments.
///
/// Whether the bytes of its encoding are aligned to words, and in which byte
/// order they are read, is a matter of the machine, and not stated.
pub(crate) fn check_document<A: Fn(Score, Score) -> Score>(
    c: &IndexConfig,
    codebook: &[Vec<Score>],
    residuals: &[Score],
    record: &DocumentRecord,
    objects: &[u8],
    fde: &[u8],
    checksummed: bool,
    add: &A,
) -> (r: Result<(), IndexError>)
    requires
        c.valid(),
        arith::is_binary(*add),
    ensures
        ({
            let e = document_error(
                *c,
                arith::rows(codebook@),
                residuals@,
                record@,
                objects@,
                fde@,
                checksummed,
                *add,
            );
            &&& e is Some ==> r == Err::<(), IndexError>(e->0)
            &&& e is None && r is Ok ==> encoding_is(fde@, record.fde_location, true)
            &&& e is None && r is Err ==> r == Err::<(), IndexError>(IndexError::Io(StorageError::FdeUnaligned)) || (r
                == Err::<(), IndexError>(IndexError::Invalid(Reason::NonFiniteFde)) && encoding_is(
                fde@,
                record.fde_location,
                false,
            ))
        }),
{
    if let Err(e) = storage::verify_record(objects, record.location, checksummed) {
        return Err(IndexError::Io(e));
    }
    if let Err(e) = storage::verify_record(fde, record.fde_location, checksummed) {
        return Err(IndexError::Io(e));
    }
    let ghost bytes = storage::record(objects@, record.location);
    let decoded: FlatVectors = match CompressedVectorStore::decode(objects, record.location, codebook, residuals, add) {
        Ok(decoded) => decoded,
        Err(e) => {
            return Err(IndexError::Io(e));
        },
    };
    if decoded.dimension != c.dimension {
        return Err(IndexError::Invalid(Reason::DocumentShape));
    }
    proof {
        let n = storage::le32_at(bytes, 0);
        let d = c.dimension as int;
        assert(decoded.values@.len() == n * d);
        vstd::arithmetic::div_mod::lemma_div_by_multiple(n, d);
    }
    if record.tokens == 0 || decoded.values.len() / c.dimension != record.tokens || record.centroid_ids.len()
        != record.tokens || record.compressed_bytes != record.location.length || !ids_below(
        record.centroid_ids.as_slice(),
        codebook.len(),
    ) || !score::all_finite(decoded.values.as_slice()) {
        return Err(IndexError::Invalid(Reason::DocumentShape));
    }
    let stored: Vec<u32> = match CompressedVectorStore::stored_ids(objects, record.location, record.tokens) {
        Some(stored) => stored,
        None => {
            return Err(IndexError::Invalid(Reason::CentroidMismatch));
        },
    };
    if !same_ids(stored.as_slice(), record.centroid_ids.as_slice()) {
        return Err(IndexError::Invalid(Reason::CentroidMismatch));
    }
    let unique: Vec<u32> = state::sorted_unique(record.centroid_ids.as_slice());
    if !same_ids(unique.as_slice(), record.unique_centroids.as_slice()) {
        proof {
            if state::is_sorted_unique(record@.centroid_ids, record@.unique_centroids) {
                state::law_sorted_unique_is_unique(record@.centroid_ids, unique@, record@.unique_centroids);
            }
        }
        return Err(IndexError::Invalid(Reason::PostingList));
    }
    match FixedVectorStore::get(fde, record.fde_location, c.output_dimension()) {
        Err(e) => Err(IndexError::Io(e)),
        Ok(words) => {
            let finite: bool = score::all_finite(words);
            proof {
                let little = choose|little: bool|
                    storage::is_image(storage::record(fde@, record.fde_location), words@, little);
                assert(storage::is_image(storage::record(fde@, record.fde_location), words@, little));
                assert(encoding_is(fde@, record.fde_location, finite));
            }
            if finite {
                Ok(())
            } else {
                Err(IndexError::Invalid(Reason::NonFiniteFde))
            }
        },
    }
}

} // verus!
