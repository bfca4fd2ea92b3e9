//! The configuration of an index, and the conditions that requests must meet.

use vstd::prelude::*;
use vstd::arithmetic::power2::pow2;
use crate::arith;
use crate::error::StorageError;
use crate::hnsw::types::DBError;
use crate::score;
use crate::score::Score;

verus! {

/// The shape of an index: its vectors, its codebooks and its encodings.
#[derive(Clone, Copy, Debug, PartialEq, Eq, Structural)]
pub struct IndexConfig {
    pub dimension: usize,
    pub centroids: usize,
    pub residual_bits: u8,
    pub probes: usize,
    pub fde_repetitions: usize,
    pub fde_ksim: usize,
    pub fde_projected: usize,
}

/// The centroids of a configuration that names none.
pub fn default_centroids() -> (r: usize)
    ensures
        r == 64,
{
    64
}

/// The bits of a residual code where a configuration names none.
pub fn default_bits() -> (r: u8)
    ensures
        r == 2,
{
    2
}

/// The probes of a configuration that names none.
pub fn default_probes() -> (r: usize)
    ensures
        r == 4,
{
    4
}

/// The repetitions of an encoding where a configuration names none.
pub fn default_fde_repetitions() -> (r: usize)
    ensures
        r == 20,
{
    20
}

/// The hyperplanes of a repetition where a configuration names none.
pub fn default_fde_ksim() -> (r: usize)
    ensures
        r == 4,
{
    4
}

/// The projected dimensions of a bucket where a configuration names none.
pub fn default_fde_projected() -> (r: usize)
    ensures
        r == 8,
{
    8
}

/// When a commit counts as done.
#[derive(Clone, Copy, Debug, PartialEq, Eq, Structural)]
pub enum Durability {
    /// After the segments, the manifest and its directory entry are synced.
    Fsync,
    /// After the manifest is replaced, synced or not.
    Buffered,
}

impl Default for Durability {
    fn default() -> (r: Self)
        ensures
            r == Durability::Fsync,
    {
        Durability::Fsync
    }
}

/// Why a request or an index was refused.
#[derive(Clone, Copy, Debug, PartialEq, Eq, Structural)]
pub enum Reason {
    ConfigShape,
    ConfigSize,
    EnvelopeMismatch,
    SidecarMismatch,
    ManifestVersion,
    FdeVersion(u32),
    Codebook,
    MissingManifest,
    ShortSegment,
    DocumentShape,
    CentroidMismatch,
    PostingList,
    NonFiniteFde,
    Vectors(usize),
    GenerationExhausted,
    TooFewSamples,
    NotEmpty,
    UntrainedUpsert,
    Untrained,
    TopK,
    TopKAndEf,
    Ef,
    Pruning,
    CandidateCount,
    CandidateCountAndEf,
    HnswParameters,
    GenerationMoved(u64, u64),
    AnnMissing,
    AnnStale,
    PointId,
    Overlay,
    DeltaDocument,
    UnknownDocument,
    Search(DBError),
    Build(DBError),
}

impl Reason {
    /// The text of a reason; where something varies in it, the text before that.
    pub open spec fn text(self) -> Seq<char> {
        match self {
            Reason::ConfigShape => "dimension, centroids, probes, and residual_bits (1..=8) must be valid"@,
            Reason::ConfigSize => "configuration exceeds checked 64 MiB workspace limit"@,
            Reason::EnvelopeMismatch => "manifest checksum or envelope version mismatch"@,
            Reason::SidecarMismatch => "manifest.sha256 does not match the manifest"@,
            Reason::ManifestVersion => "unsupported manifest version or missing committed boundaries"@,
            Reason::FdeVersion(_) => "unsupported FDE encoding version "@,
            Reason::Codebook => "invalid persisted codebook"@,
            Reason::MissingManifest => "missing manifest for non-empty segments"@,
            Reason::ShortSegment => "segment shorter than committed boundary"@,
            Reason::DocumentShape => "invalid document shape or centroid IDs"@,
            Reason::CentroidMismatch => "manifest/record centroid mismatch"@,
            Reason::PostingList => "invalid document posting list"@,
            Reason::NonFiniteFde => "non-finite FDE record"@,
            Reason::Vectors(_) => "vectors must be a non-empty matrix of "@,
            Reason::GenerationExhausted => "generation exhausted"@,
            Reason::TooFewSamples => "training samples must be >= centroid count"@,
            Reason::NotEmpty => "cannot retrain a non-empty index"@,
            Reason::UntrainedUpsert => "index is untrained; call train first"@,
            Reason::Untrained => "index is untrained"@,
            Reason::TopK => "top_k must be positive"@,
            Reason::TopKAndEf => "top_k and ef_search must be positive"@,
            Reason::Ef => "ef_search must be positive"@,
            Reason::Pruning => "require top_k > 0 and candidates >= rerank_candidates >= top_k"@,
            Reason::CandidateCount => "candidate count must be positive"@,
            Reason::CandidateCountAndEf => "candidate count and ef_search must be positive"@,
            Reason::HnswParameters => "HNSW m and ef_construct must be positive"@,
            Reason::GenerationMoved(_, _) => "index generation moved during HNSW build "@,
            Reason::AnnMissing => "FDE ANN is not built; call /v1/fde/index"@,
            Reason::AnnStale => "FDE ANN generation is stale; rebuild"@,
            Reason::PointId => "invalid HNSW point id"@,
            Reason::Overlay => "FDE ANN overlay is inconsistent; rebuild"@,
            Reason::DeltaDocument => "missing delta document"@,
            Reason::UnknownDocument => "unknown document: "@,
            Reason::Search(_) => "HNSW search failed: "@,
            Reason::Build(_) => "HNSW par_insert_batch failed: "@,
        }
    }

    /// The text of the reason; where something varies in it, the text before that.
    pub fn message(&self) -> (r: &'static str)
        ensures
            r@ == self.text(),
    {
        match self {
            Reason::ConfigShape => "dimension, centroids, probes, and residual_bits (1..=8) must be valid",
            Reason::ConfigSize => "configuration exceeds checked 64 MiB workspace limit",
            Reason::EnvelopeMismatch => "manifest checksum or envelope version mismatch",
            Reason::SidecarMismatch => "manifest.sha256 does not match the manifest",
            Reason::ManifestVersion => "unsupported manifest version or missing committed boundaries",
            Reason::FdeVersion(_) => "unsupported FDE encoding version ",
            Reason::Codebook => "invalid persisted codebook",
            Reason::MissingManifest => "missing manifest for non-empty segments",
            Reason::ShortSegment => "segment shorter than committed boundary",
            Reason::DocumentShape => "invalid document shape or centroid IDs",
            Reason::CentroidMismatch => "manifest/record centroid mismatch",
            Reason::PostingList => "invalid document posting list",
            Reason::NonFiniteFde => "non-finite FDE record",
            Reason::Vectors(_) => "vectors must be a non-empty matrix of ",
            Reason::GenerationExhausted => "generation exhausted",
            Reason::TooFewSamples => "training samples must be >= centroid count",
            Reason::NotEmpty => "cannot retrain a non-empty index",
            Reason::UntrainedUpsert => "index is untrained; call train first",
            Reason::Untrained => "index is untrained",
            Reason::TopK => "top_k must be positive",
            Reason::TopKAndEf => "top_k and ef_search must be positive",
            Reason::Ef => "ef_search must be positive",
            Reason::Pruning => "require top_k > 0 and candidates >= rerank_candidates >= top_k",
            Reason::CandidateCount => "candidate count must be positive",
            Reason::CandidateCountAndEf => "candidate count and ef_search must be positive",
            Reason::HnswParameters => "HNSW m and ef_construct must be positive",
            Reason::GenerationMoved(_, _) => "index generation moved during HNSW build ",
            Reason::AnnMissing => "FDE ANN is not built; call /v1/fde/index",
            Reason::AnnStale => "FDE ANN generation is stale; rebuild",
            Reason::PointId => "invalid HNSW point id",
            Reason::Overlay => "FDE ANN overlay is inconsistent; rebuild",
            Reason::DeltaDocument => "missing delta document",
            Reason::UnknownDocument => "unknown document: ",
            Reason::Search(_) => "HNSW search failed: ",
            Reason::Build(_) => "HNSW par_insert_batch failed: ",
        }
    }
}

/// What an index answers where it does not answer with a result.
#[derive(Clone, Copy, Debug, PartialEq, Eq, Structural)]
pub enum IndexError {
    /// The request or the index does not meet a condition.
    Invalid(Reason),
    /// The index on disk has another configuration.
    Config { actual: IndexConfig, requested: IndexConfig },
    /// A segment or a record is damaged.
    Io(StorageError),
}

/// The greatest number of values that one workspace may hold.
pub const MAX_VALUES: usize = 0x100_0000;

impl IndexConfig {
    /// The configuration for vectors of a dimension, the rest by default.
    pub fn new(dimension: usize) -> (r: Self)
        ensures
            r.dimension == dimension,
            r.centroids == 64,
            r.residual_bits == 2,
            r.probes == 4,
            r.fde_repetitions == 20,
            r.fde_ksim == 4,
            r.fde_projected == 8,
    {
        IndexConfig {
            dimension,
            centroids: default_centroids(),
            residual_bits: default_bits(),
            probes: default_probes(),
            fde_repetitions: default_fde_repetitions(),
            fde_ksim: default_fde_ksim(),
            fde_projected: default_fde_projected(),
        }
    }

    /// Whether every number of the configuration is in its range.
    pub open spec fn in_range(self) -> bool {
        &&& self.dimension > 0
        &&& self.centroids > 0
        &&& self.probes > 0
        &&& 1 <= self.residual_bits <= 8
        &&& self.fde_repetitions > 0
        &&& 1 <= self.fde_ksim <= 12
        &&& self.fde_projected > 0
    }

    /// The buckets of one repetition.
    pub open spec fn buckets(self) -> nat {
        pow2(self.fde_ksim as nat)
    }

    /// The dimension of an encoding.
    pub open spec fn encoding_dimension(self) -> nat {
        self.buckets() * self.fde_projected as nat * self.fde_repetitions as nat
    }

    /// Whether no workspace holds more than it may.
    pub open spec fn within_limits(self) -> bool {
        &&& self.centroids <= u32::MAX
        &&& self.dimension * self.centroids <= MAX_VALUES
        &&& self.encoding_dimension() <= MAX_VALUES
        &&& (self.fde_projected + self.fde_ksim) * self.dimension * self.fde_repetitions <= MAX_VALUES
        &&& self.buckets() * self.dimension <= MAX_VALUES
    }

    /// Whether the configuration can be opened.
    pub open spec fn valid(self) -> bool {
        self.in_range() && self.within_limits()
    }

    fn check_range(&self) -> (r: bool)
        ensures
            r == self.in_range(),
    {
        !(self.dimension == 0 || self.centroids == 0 || self.probes == 0 || self.residual_bits < 1 || self.residual_bits
            > 8 || self.fde_repetitions == 0 || self.fde_ksim == 0 || self.fde_ksim > 12 || self.fde_projected == 0)
    }

    /// Refuses a configuration that cannot be opened.
    pub fn validate(&self) -> (r: Result<(), IndexError>)
        ensures
            !self.in_range() ==> r == Err::<(), IndexError>(IndexError::Invalid(Reason::ConfigShape)),
            self.in_range() && !self.within_limits() ==> r == Err::<(), IndexError>(
                IndexError::Invalid(Reason::ConfigSize),
            ),
            self.valid() ==> r is Ok,
    {
        if !self.check_range() {
            return Err(IndexError::Invalid(Reason::ConfigShape));
        }
        validate_config_size(self)
    }

    /// The dimension of an encoding.
    pub fn output_dimension(&self) -> (r: usize)
        requires
            self.valid(),
        ensures
            r == self.encoding_dimension(),
    {
        let buckets: usize = power_of_two(self.fde_ksim);
        proof {
            let a = self.buckets();
            let b = self.fde_projected as nat;
            let c = self.fde_repetitions as nat;
            assert(a * b <= a * b * c) by (nonlinear_arith)
                requires
                    c >= 1,
            ;
        }
        buckets * self.fde_projected * self.fde_repetitions
    }
}

pub(crate) fn power_of_two(exponent: usize) -> (r: usize)
    requires
        exponent <= 12,
    ensures
        r == pow2(exponent as nat),
{
    let mut r: usize = 1;
    let mut i: usize = 0;
    proof {
        vstd::arithmetic::power2::lemma2_to64();
    }
    while i < exponent
        invariant
            i <= exponent <= 12,
            r == pow2(i as nat),
        decreases exponent - i,
    {
        proof {
            vstd::arithmetic::power2::lemma_pow2_unfold((i + 1) as nat);
            vstd::arithmetic::power2::lemma2_to64();
            if i < 12 {
                vstd::arithmetic::power2::lemma_pow2_strictly_increases(i as nat, 12);
            }
        }
        r = r * 2;
        i += 1;
    }
    r
}

/// Whether a product of two is within the limit.
fn product_within(a: usize, b: usize) -> (r: bool)
    ensures
        r == (a * b <= MAX_VALUES),
{
    match a.checked_mul(b) {
        Some(n) => n <= MAX_VALUES,
        None => false,
    }
}

/// Whether a product of three is within the limit.
fn product3_within(a: usize, b: usize, c: usize) -> (r: bool)
    requires
        c >= 1,
    ensures
        r == (a * b * c <= MAX_VALUES),
{
    match a.checked_mul(b) {
        Some(n) => product_within(n, c),
        None => {
            assert(a * b <= a * b * c) by (nonlinear_arith)
                requires
                    c >= 1,
            ;
            false
        },
    }
}

/// Refuses a configuration with a workspace that would hold more than
/// [`MAX_VALUES`] values.
pub fn validate_config_size(c: &IndexConfig) -> (r: Result<(), IndexError>)
    requires
        c.dimension > 0,
        c.fde_repetitions > 0,
        c.fde_ksim <= 12,
    ensures
        c.within_limits() ==> r is Ok,
        !c.within_limits() ==> r == Err::<(), IndexError>(IndexError::Invalid(Reason::ConfigSize)),
{
    let buckets: usize = power_of_two(c.fde_ksim);
    let planes: bool = match c.fde_projected.checked_add(c.fde_ksim) {
        Some(n) => product3_within(n, c.dimension, c.fde_repetitions),
        None => {
            proof {
                let a = c.fde_projected + c.fde_ksim;
                let d = c.dimension as int;
                let e = c.fde_repetitions as int;
                assert(a <= a * d * e) by (nonlinear_arith)
                    requires
                        a >= 0,
                        d >= 1,
                        e >= 1,
                ;
            }
            false
        },
    };
    if c.centroids > u32::MAX as usize || !product_within(c.dimension, c.centroids) || !product3_within(
        buckets,
        c.fde_projected,
        c.fde_repetitions,
    ) || !planes || !product_within(buckets, c.dimension) {
        return Err(IndexError::Invalid(Reason::ConfigSize));
    }
    Ok(())
}

/// Whether every row has the given length and holds only finite numbers.
pub open spec fn finite_matrix(m: Seq<Seq<Score>>, dimension: nat) -> bool {
    forall|i: int|
        0 <= i < m.len() ==> (#[trigger] m[i]).len() == dimension && (forall|j: int|
            0 <= j < m[i].len() ==> score::finite(#[trigger] m[i][j]))
}

/// Whether every row has the given length and holds only finite numbers.
pub fn is_finite_matrix(m: &[Vec<Score>], dimension: usize) -> (r: bool)
    ensures
        r == finite_matrix(arith::rows(m@), dimension as nat),
{
    let mut i: usize = 0;
    while i < m.len()
        invariant
            i <= m@.len(),
            forall|k: int|
                0 <= k < i ==> (#[trigger] arith::rows(m@)[k]).len() == dimension && (forall|j: int|
                    0 <= j < arith::rows(m@)[k].len() ==> score::finite(#[trigger] arith::rows(m@)[k][j])),
        decreases m@.len() - i,
    {
        let row: &Vec<Score> = &m[i];
        assert(row@ == arith::rows(m@)[i as int]);
        if row.len() != dimension || !score::all_finite(row.as_slice()) {
            return false;
        }
        i += 1;
    }
    true
}

/// Whether persisted codebooks are of the shape that a configuration asks for.
/// An index without documents may have none.
pub open spec fn codebooks_valid(c: IndexConfig, centers: Seq<Seq<Score>>, residuals: Seq<Score>, has_docs: bool) -> bool {
    ||| centers.len() == 0 && residuals.len() == 0 && !has_docs
    ||| {
        &&& centers.len() == c.centroids
        &&& residuals.len() == pow2(c.residual_bits as nat)
        &&& finite_matrix(centers, c.dimension as nat)
        &&& forall|i: int| 0 <= i < residuals.len() ==> score::finite(#[trigger] residuals[i])
    }
}

/// Whether codebooks have as many rows and levels as a configuration asks for, and
/// rows of its dimension. An index without documents may have none.
pub open spec fn codebooks_shaped(c: IndexConfig, centers: Seq<Seq<Score>>, residuals: Seq<Score>, has_docs: bool) -> bool {
    ||| centers.len() == 0 && residuals.len() == 0 && !has_docs
    ||| {
        &&& centers.len() == c.centroids
        &&& residuals.len() == pow2(c.residual_bits as nat)
        &&& forall|i: int| 0 <= i < centers.len() ==> (#[trigger] centers[i]).len() == c.dimension
    }
}

/// Refuses persisted codebooks of another shape than the configuration asks for.
pub fn validate_codebooks(c: &IndexConfig, centers: &[Vec<Score>], residuals: &[Score], has_docs: bool) -> (r: Result<
    (),
    IndexError,
>)
    requires
        c.residual_bits <= 8,
    ensures
        codebooks_valid(*c, arith::rows(centers@), residuals@, has_docs) ==> r is Ok,
        !codebooks_valid(*c, arith::rows(centers@), residuals@, has_docs) ==> r == Err::<(), IndexError>(
            IndexError::Invalid(Reason::Codebook),
        ),
{
    if centers.len() == 0 && residuals.len() == 0 && !has_docs {
        return Ok(());
    }
    if centers.len() != c.centroids || residuals.len() != power_of_two(c.residual_bits as usize) || !is_finite_matrix(
        centers,
        c.dimension,
    ) || !score::all_finite(residuals) {
        return Err(IndexError::Invalid(Reason::Codebook));
    }
    Ok(())
}

/// Refuses stages of a query that do not narrow.
pub fn check_pruning_shape(top_k: usize, candidates: usize, rerank_candidates: usize) -> (r: Result<(), IndexError>)
    ensures
        0 < top_k <= rerank_candidates <= candidates ==> r is Ok,
        !(0 < top_k <= rerank_candidates <= candidates) ==> r == Err::<(), IndexError>(
            IndexError::Invalid(Reason::Pruning),
        ),
{
    if top_k == 0 || rerank_candidates < top_k || candidates < rerank_candidates {
        return Err(IndexError::Invalid(Reason::Pruning));
    }
    Ok(())
}

/// How many candidates a query scores exactly: as many as asked for, eight times
/// the results where nothing is asked for, and never fewer than the results.
pub open spec fn candidate_budget(top_k: usize, candidates: Option<usize>) -> int {
    let wanted = match candidates {
        Some(n) => n as int,
        None => if top_k * 8 > usize::MAX {
            usize::MAX as int
        } else {
            top_k * 8
        },
    };
    if wanted > top_k {
        wanted
    } else {
        top_k as int
    }
}

/// How many candidates a query scores exactly.
pub fn candidate_count(top_k: usize, candidates: Option<usize>) -> (r: usize)
    ensures
        r == candidate_budget(top_k, candidates),
{
    let wanted: usize = match candidates {
        Some(n) => n,
        None => match top_k.checked_mul(8) {
            Some(n) => n,
            None => usize::MAX,
        },
    };
    if wanted > top_k {
        wanted
    } else {
        top_k
    }
}

} // verus!
