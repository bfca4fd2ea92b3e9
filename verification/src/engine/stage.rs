//! Writing documents: what goes into the segments, and the state that names it.

use vstd::prelude::*;
use crate::arith;
use crate::config;
use crate::config::{IndexError, Reason};
use crate::engine::index::MultiVectorIndex;
use crate::engine::late;
use crate::engine::state;
use crate::engine::state::{State, StateView};
use crate::engine::train;
use crate::engine::update;
use crate::engine::update::StagedDocument;
use crate::error::StorageError;
use crate::muvera;
use crate::muvera::FdeEncoder;
use crate::score::Score;
use crate::storage;
use crate::storage::{CompressedVectorStore, FixedVectorStore, ObjectLocation};

verus! {

/// A document to be written.
pub struct UpsertDocument {
    pub id: String,
    pub vectors: Vec<Vec<Score>>,
    /// The caller's metadata, as JSON text.
    pub metadata: String,
}

/// The bytes that a document appends to the segments.
pub struct Write {
    /// The compressed document.
    pub objects: Vec<u8>,
    /// The encoding, behind the zero bytes that align it.
    pub fde: Vec<u8>,
}

/// A batch that can be committed: the state after it, and what each of its
/// documents appends to the segments, in this order.
pub struct Upsert {
    pub state: State,
    pub writes: Vec<Write>,
}

/// The arithmetic of writing documents: `normalize` gives a vector of length one,
/// `dot` the product of two vectors, `distance` their distance, `gap` the distance
/// of a number from a level around a center, `add` the sum of two numbers; `divide`
/// gives `x / n`, `shrink` gives `x * (1.0 / n)`.
pub struct Encoding<
    'a,
    N: Fn(&[Score]) -> Vec<Score>,
    D: Fn(&[Score], &[Score]) -> Score,
    L: Fn(&[Score], &[Score]) -> Score,
    G: Fn(Score, Score, Score) -> Score,
    A: Fn(Score, Score) -> Score,
    V: Fn(Score, usize) -> Score,
    W: Fn(Score, usize) -> Score,
> {
    pub normalize: &'a N,
    pub dot: &'a D,
    pub distance: &'a L,
    pub gap: &'a G,
    pub add: &'a A,
    pub divide: &'a V,
    pub shrink: &'a W,
}

/// The bytes that writes append to the objects.
pub open spec fn objects_length(writes: Seq<Write>) -> nat
    decreases writes.len(),
{
    if writes.len() == 0 {
        0
    } else {
        objects_length(writes.drop_last()) + writes.last().objects@.len()
    }
}

/// The bytes that writes append to the encodings.
pub open spec fn fde_length(writes: Seq<Write>) -> nat
    decreases writes.len(),
{
    if writes.len() == 0 {
        0
    } else {
        fde_length(writes.drop_last()) + writes.last().fde@.len()
    }
}

impl<
    'a,
    N: Fn(&[Score]) -> Vec<Score>,
    D: Fn(&[Score], &[Score]) -> Score,
    L: Fn(&[Score], &[Score]) -> Score,
    G: Fn(Score, Score, Score) -> Score,
    A: Fn(Score, Score) -> Score,
    V: Fn(Score, usize) -> Score,
    W: Fn(Score, usize) -> Score,
> Encoding<'a, N, D, L, G, A, V, W> {
    /// Whether each is a function.
    pub open spec fn ok(&self) -> bool {
        &&& train::is_normalizing(*self.normalize)
        &&& arith::is_measure(*self.dot)
        &&& arith::is_measure(*self.distance)
        &&& arith::is_ternary(*self.gap)
        &&& arith::is_binary(*self.add)
        &&& arith::is_scaling(*self.divide)
        &&& arith::is_scaling(*self.shrink)
    }

    /// The vectors of a document, normalized.
    pub open spec fn rows(&self, document: UpsertDocument) -> Seq<Seq<Score>> {
        late::normalized_rows(*self.normalize, arith::rows(document.vectors@))
    }

    /// The nearest centroid of each vector.
    pub open spec fn centroids(&self, index: MultiVectorIndex, document: UpsertDocument) -> Seq<u32> {
        self.rows(document).map_values(
            |v: Seq<Score>| train::nearest_center(*self.distance, v, index.state@.codebook) as u32,
        )
    }

    /// The compressed document.
    pub open spec fn object(&self, index: MultiVectorIndex, document: UpsertDocument) -> Seq<u8> {
        storage::plaid_record(
            index.config.dimension as u32,
            index.config.residual_bits,
            self.centroids(index, document),
            storage::residual_codes(
                *self.gap,
                self.rows(document),
                self.centroids(index, document),
                index.state@.codebook,
                index.state@.residual_codebook,
                index.config.dimension as nat,
            ),
        )
    }

    /// The encoding of a document.
    pub open spec fn encoding(&self, encoder: FdeEncoder, document: UpsertDocument) -> Seq<Score> {
        if encoder.encoding_version == 1 {
            muvera::document_encoding(
                *self.dot,
                *self.add,
                *self.divide,
                encoder,
                self.rows(document),
                encoder.repetitions@.len(),
            )
        } else {
            muvera::document_encoding(
                *self.dot,
                *self.add,
                *self.shrink,
                encoder,
                self.rows(document),
                encoder.repetitions@.len(),
            )
        }
    }

    /// Why a document cannot be appended to segments of these lengths.
    pub open spec fn failure(
        &self,
        index: MultiVectorIndex,
        encoder: FdeEncoder,
        document: UpsertDocument,
        objects: nat,
        fde: nat,
    ) -> Option<StorageError> {
        if document.vectors@.len() > u32::MAX {
            Some(StorageError::InputShape)
        } else if objects + self.object(index, document).len() > u64::MAX {
            Some(StorageError::OffsetOverflow)
        } else if fde + storage::padding(fde) + 4 * self.encoding(encoder, document).len() > u64::MAX {
            Some(StorageError::FdeOffsetOverflow)
        } else {
            None
        }
    }

    /// Whether a document was staged behind segments of these lengths.
    pub open spec fn stages(
        &self,
        index: MultiVectorIndex,
        encoder: FdeEncoder,
        document: UpsertDocument,
        objects: nat,
        fde: nat,
        staged: StagedDocument,
        write: Write,
    ) -> bool {
        &&& self.failure(index, encoder, document, objects, fde) is None
        &&& staged.id@ == document.id@
        &&& staged.metadata@ == document.metadata@
        &&& staged.centroid_ids@ == self.centroids(index, document)
        &&& staged.fits(index.state@.codebook.len())
        &&& write.objects@ == self.object(index, document)
        &&& staged.location.offset == objects
        &&& staged.location.length == write.objects@.len()
        &&& staged.location.checksum is Some
        &&& staged.location.checksum->0@ == storage::blake3_digest(write.objects@)
        &&& is_aligned_image(write.fde@, storage::padding(fde), self.encoding(encoder, document))
        &&& staged.fde_location.offset == fde + storage::padding(fde)
        &&& staged.fde_location.length == write.fde@.len() - storage::padding(fde)
        &&& staged.fde_location.checksum is Some
        &&& staged.fde_location.checksum->0@ == storage::blake3_digest(
            write.fde@.skip(storage::padding(fde) as int),
        )
    }

    /// Whether a batch was staged behind segments of these lengths, each document
    /// behind the one before.
    pub open spec fn stages_all(
        &self,
        index: MultiVectorIndex,
        encoder: FdeEncoder,
        batch: Seq<UpsertDocument>,
        objects: nat,
        fde: nat,
        staged: Seq<StagedDocument>,
        writes: Seq<Write>,
    ) -> bool {
        &&& staged.len() == batch.len()
        &&& writes.len() == batch.len()
        &&& forall|i: int|
            0 <= i < batch.len() ==> self.stages(
                index,
                encoder,
                #[trigger] batch[i],
                objects + objects_length(writes.take(i)),
                fde + fde_length(writes.take(i)),
                staged[i],
                writes[i],
            )
    }

    /// Whether a batch fails with an error: the documents before one can be
    /// staged, and that one cannot.
    pub open spec fn fails(
        &self,
        index: MultiVectorIndex,
        encoder: FdeEncoder,
        batch: Seq<UpsertDocument>,
        objects: nat,
        fde: nat,
        e: StorageError,
    ) -> bool {
        exists|i: int, staged: Seq<StagedDocument>, writes: Seq<Write>|
            0 <= i < batch.len() && #[trigger] self.stages_all(
                index,
                encoder,
                batch.take(i),
                objects,
                fde,
                staged,
                writes,
            ) && self.failure(
                index,
                encoder,
                batch[i],
                objects + objects_length(writes),
                fde + fde_length(writes),
            ) == Some(e)
    }

    /// Whether this is what writing a batch behind segments of these lengths gives:
    /// a refusal, the failure of staging one of its documents, or the generation
    /// after it with what is to be appended; nothing for an empty batch.
    pub open spec fn is_upsert(
        &self,
        index: MultiVectorIndex,
        encoder: FdeEncoder,
        batch: Seq<UpsertDocument>,
        objects: nat,
        fde: nat,
        r: Result<Option<Upsert>, IndexError>,
    ) -> bool {
        match index.upsert_error(vectors_of(batch)) {
            Some(e) => r == Err::<Option<Upsert>, IndexError>(e),
            None => match r {
                Ok(None) => batch.len() == 0,
                Ok(Some(upsert)) => {
                    &&& batch.len() > 0
                    &&& index.state.generation < u64::MAX
                    &&& index.accepts(&upsert.state)
                    &&& exists|staged: Seq<StagedDocument>|
                        #[trigger] self.stages_all(index, encoder, batch, objects, fde, staged, upsert.writes@)
                            && is_after(upsert.state, index.state@, staged)
                },
                Err(e) => {
                    &&& batch.len() > 0
                    &&& match e {
                        IndexError::Io(failure) => self.fails(index, encoder, batch, objects, fde, failure),
                        _ => e == IndexError::Invalid(Reason::GenerationExhausted) && index.state.generation == u64::MAX,
                    }
                },
            },
        }
    }
}

/// Whether bytes are so many zero bytes and then the numbers of a vector, in one of
/// the two byte orders.
pub open spec fn is_aligned_image(bytes: Seq<u8>, zeros: nat, vector: Seq<Score>) -> bool {
    &&& bytes.len() == zeros + 4 * vector.len()
    &&& forall|i: int| 0 <= i < zeros ==> #[trigger] bytes[i] == 0
    &&& exists|little: bool| storage::is_image(bytes.skip(zeros as int), vector, little)
}

/// So many zero bytes, then others.
fn behind_zeros(zeros: u64, bytes: &[u8]) -> (r: Vec<u8>)
    requires
        zeros < 4,
    ensures
        r@ == Seq::new(zeros as nat, |i: int| 0u8) + bytes@,
{
    let mut out: Vec<u8> = Vec::with_capacity(bytes.len());
    let mut i: u64 = 0;
    while i < zeros
        invariant
            i <= zeros,
            out@ == Seq::new(i as nat, |i: int| 0u8),
        decreases zeros - i,
    {
        out.push(0);
        i += 1;
        assert(out@ =~= Seq::new(i as nat, |i: int| 0u8));
    }
    out.extend_from_slice(bytes);
    assert(out@ =~= Seq::new(zeros as nat, |i: int| 0u8) + bytes@);
    out
}

impl MultiVectorIndex {
    /// Stages a document behind segments of these lengths.
    fn stage_document<N, D, L, G, A, V, W>(
        &self,
        document: UpsertDocument,
        objects: u64,
        fde: u64,
        encoder: &FdeEncoder,
        kernels: &Encoding<'_, N, D, L, G, A, V, W>,
    ) -> (r: Result<(StagedDocument, Write), StorageError>) where
        N: Fn(&[Score]) -> Vec<Score>,
        D: Fn(&[Score], &[Score]) -> Score,
        L: Fn(&[Score], &[Score]) -> Score,
        G: Fn(Score, Score, Score) -> Score,
        A: Fn(Score, Score) -> Score,
        V: Fn(Score, usize) -> Score,
        W: Fn(Score, usize) -> Score,

        requires
            self.ok(),
            self.encodes_with(*encoder),
            kernels.ok(),
            self.takes(arith::rows(document.vectors@)),
            self.state@.codebook.len() > 0,
        ensures
            match kernels.failure(*self, *encoder, document, objects as nat, fde as nat) {
                Some(e) => r == Err::<(StagedDocument, Write), StorageError>(e),
                None => r is Ok && kernels.stages(
                    *self,
                    *encoder,
                    document,
                    objects as nat,
                    fde as nat,
                    r->Ok_0.0,
                    r->Ok_0.1,
                ),
            },
    {
        let ghost rows = kernels.rows(document);
        let vectors: Vec<Vec<Score>> = train::normalize_all(kernels.normalize, document.vectors.as_slice());
        proof {
            assert(arith::rows(vectors@) =~= rows);
            assert forall|i: int| 0 <= i < vectors@.len() implies (#[trigger] vectors@[i])@.len() == self.config.dimension by {
                assert(arith::rows(document.vectors@)[i].len() == self.config.dimension);
            }
        }
        let mut ids: Vec<u32> = Vec::with_capacity(vectors.len());
        let mut i: usize = 0;
        while i < vectors.len()
            invariant
                self.ok(),
                kernels.ok(),
                self.state@.codebook.len() > 0,
                rows == kernels.rows(document),
                rows == arith::rows(vectors@),
                i <= vectors@.len(),
                ids@ == kernels.centroids(*self, document).take(i as int),
                forall|k: int| 0 <= k < i ==> (#[trigger] ids@[k]) < self.state@.codebook.len(),
            decreases vectors@.len() - i,
        {
            let near: usize = train::nearest(vectors[i].as_slice(), self.state.codebook.as_slice(), kernels.distance);
            assert(near < self.state@.codebook.len() <= u32::MAX);
            ids.push(near as u32);
            i += 1;
            assert(ids@ =~= kernels.centroids(*self, document).take(i as int));
        }
        assert(ids@ =~= kernels.centroids(*self, document));
        let outcome: Result<(ObjectLocation, Vec<u8>), StorageError> = CompressedVectorStore::put(
            objects,
            vectors.as_slice(),
            ids.as_slice(),
            self.state.codebook.as_slice(),
            self.state.residual_codebook.as_slice(),
            self.config.residual_bits,
            kernels.gap,
        );
        proof {
            lemma_put_fits(*self, rows, ids@);
        }
        let (location, bytes): (ObjectLocation, Vec<u8>) = match outcome {
            Ok(put) => put,
            Err(e) => {
                return Err(e);
            },
        };
        if objects.checked_add(bytes.len() as u64).is_none() {
            return Err(StorageError::OffsetOverflow);
        }
        let vector: Vec<Score> = encoder.encode_document(
            vectors.as_slice(),
            kernels.dot,
            kernels.add,
            kernels.divide,
            kernels.shrink,
        );
        let (zeros, image, fde_location): (u64, &[u8], ObjectLocation) = match FixedVectorStore::put(
            fde,
            vector.as_slice(),
        ) {
            Ok(put) => put,
            Err(e) => {
                return Err(e);
            },
        };
        if fde_location.offset.checked_add(image.len() as u64).is_none() {
            return Err(StorageError::FdeOffsetOverflow);
        }
        let written: Vec<u8> = behind_zeros(zeros, image);
        proof {
            assert(written@.skip(zeros as int) =~= image@);
        }
        Ok((
            StagedDocument { id: document.id, centroid_ids: ids, location, fde_location, metadata: document.metadata },
            Write { objects: bytes, fde: written },
        ))
    }

    /// Stages the next generation with a batch written, together with what is to be
    /// appended to segments of these lengths. Of documents with the same id the
    /// last one counts. Nothing is staged for an empty batch.
    pub fn upsert_batch<N, D, L, G, A, V, W>(
        &self,
        batch: Vec<UpsertDocument>,
        objects: u64,
        fde: u64,
        encoder: &FdeEncoder,
        kernels: &Encoding<'_, N, D, L, G, A, V, W>,
    ) -> (r: Result<Option<Upsert>, IndexError>) where
        N: Fn(&[Score]) -> Vec<Score>,
        D: Fn(&[Score], &[Score]) -> Score,
        L: Fn(&[Score], &[Score]) -> Score,
        G: Fn(Score, Score, Score) -> Score,
        A: Fn(Score, Score) -> Score,
        V: Fn(Score, usize) -> Score,
        W: Fn(Score, usize) -> Score,

        requires
            self.ok(),
            self.encodes_with(*encoder),
            kernels.ok(),
        ensures
            kernels.is_upsert(*self, *encoder, batch@, objects as nat, fde as nat, r),
    {
        if let Err(e) = self.check_batch(batch.as_slice()) {
            return Err(e);
        }
        if batch.len() == 0 {
            return Ok(None);
        }
        let ghost all = batch@;
        let count: usize = batch.len();
        let mut rest: Vec<UpsertDocument> = batch;
        let mut staged: Vec<StagedDocument> = Vec::with_capacity(count);
        let mut writes: Vec<Write> = Vec::with_capacity(count);
        let mut objects_end: u64 = objects;
        let mut fde_end: u64 = fde;
        let mut done: usize = 0;
        assert(rest@ =~= all.skip(0));
        while done < count
            invariant
                self.ok(),
                self.encodes_with(*encoder),
                kernels.ok(),
                self.upsert_error(vectors_of(all)) is None,
                all == batch@,
                count == all.len(),
                count > 0,
                done <= count,
                rest@ == all.skip(done as int),
                kernels.stages_all(
                    *self,
                    *encoder,
                    all.take(done as int),
                    objects as nat,
                    fde as nat,
                    staged@,
                    writes@,
                ),
                objects_end == objects + objects_length(writes@),
                fde_end == fde + fde_length(writes@),
            decreases count - done,
        {
            let document: UpsertDocument = rest.remove(0);
            proof {
                assert(document == all[done as int]);
                assert(rest@ =~= all.skip(done + 1));
                assert(vectors_of(all)[done as int]@ == document.vectors@);
                assert(self.takes(arith::rows(vectors_of(all)[done as int]@)));
            }
            match self.stage_document(document, objects_end, fde_end, encoder, kernels) {
                Ok((next, write)) => {
                    let ghost before = writes@;
                    objects_end = objects_end + write.objects.len() as u64;
                    fde_end = fde_end + write.fde.len() as u64;
                    staged.push(next);
                    writes.push(write);
                    proof {
                        assert(writes@.drop_last() =~= before);
                        assert forall|i: int| 0 <= i < done + 1 implies kernels.stages(
                            *self,
                            *encoder,
                            #[trigger] all.take(done + 1)[i],
                            objects as nat + objects_length(writes@.take(i)),
                            fde as nat + fde_length(writes@.take(i)),
                            staged@[i],
                            writes@[i],
                        ) by {
                            assert(writes@.take(i) =~= before.take(i));
                            if i < done {
                                assert(all.take(done as int)[i] == all[i]);
                            } else {
                                assert(before.take(i) =~= before);
                            }
                        }
                    }
                },
                Err(e) => {
                    proof {
                        assert(kernels.fails(*self, *encoder, all, objects as nat, fde as nat, e));
                    }
                    return Err(IndexError::Io(e));
                },
            }
            done += 1;
        }
        proof {
            assert(all.take(done as int) =~= all);
            assert forall|i: int| 0 <= i < staged@.len() implies (#[trigger] staged@[i]).fits(self.state@.codebook.len()) by {
                assert(kernels.stages(
                    *self,
                    *encoder,
                    all[i],
                    objects as nat + objects_length(writes@.take(i)),
                    fde as nat + fde_length(writes@.take(i)),
                    staged@[i],
                    writes@[i],
                ));
            }
        }
        let ghost documents = staged@;
        match self.stage_batch(staged) {
            Ok(Some(state)) => {
                let upsert = Upsert { state, writes };
                assert(kernels.stages_all(
                    *self,
                    *encoder,
                    batch@,
                    objects as nat,
                    fde as nat,
                    documents,
                    upsert.writes@,
                ));
                assert(is_after(upsert.state, self.state@, documents));
                Ok(Some(upsert))
            },
            Ok(None) => Ok(None),
            Err(e) => Err(e),
        }
    }

    /// Stages the next generation with one document written.
    pub fn upsert<N, D, L, G, A, V, W>(
        &self,
        document: UpsertDocument,
        objects: u64,
        fde: u64,
        encoder: &FdeEncoder,
        kernels: &Encoding<'_, N, D, L, G, A, V, W>,
    ) -> (r: Result<Option<Upsert>, IndexError>) where
        N: Fn(&[Score]) -> Vec<Score>,
        D: Fn(&[Score], &[Score]) -> Score,
        L: Fn(&[Score], &[Score]) -> Score,
        G: Fn(Score, Score, Score) -> Score,
        A: Fn(Score, Score) -> Score,
        V: Fn(Score, usize) -> Score,
        W: Fn(Score, usize) -> Score,

        requires
            self.ok(),
            self.encodes_with(*encoder),
            kernels.ok(),
        ensures
            kernels.is_upsert(*self, *encoder, seq![document], objects as nat, fde as nat, r),
    {
        let mut batch: Vec<UpsertDocument> = Vec::with_capacity(1);
        batch.push(document);
        assert(batch@ =~= seq![document]);
        self.upsert_batch(batch, objects, fde, encoder, kernels)
    }

    /// Refuses a batch that cannot be written.
    fn check_batch(&self, batch: &[UpsertDocument]) -> (r: Result<(), IndexError>)
        ensures
            match self.upsert_error(vectors_of(batch@)) {
                Some(e) => r == Err::<(), IndexError>(e),
                None => r is Ok,
            },
    {
        let mut i: usize = 0;
        while i < batch.len()
            invariant
                i <= batch@.len(),
                forall|k: int| 0 <= k < i ==> self.takes(arith::rows((#[trigger] vectors_of(batch@)[k])@)),
            decreases batch@.len() - i,
        {
            if let Err(e) = self.validate(batch[i].vectors.as_slice()) {
                assert(!self.takes(arith::rows(vectors_of(batch@)[i as int]@)));
                return Err(e);
            }
            i += 1;
        }
        if batch.len() > 0 && self.state.codebook.len() == 0 {
            return Err(IndexError::Invalid(Reason::UntrainedUpsert));
        }
        Ok(())
    }
}

/// Documents of an index's dimension can be compressed, unless they have too many
/// vectors.
proof fn lemma_put_fits(index: MultiVectorIndex, rows: Seq<Seq<Score>>, ids: Seq<u32>)
    requires
        index.ok(),
        index.state@.codebook.len() > 0,
        rows.len() > 0,
        ids.len() == rows.len(),
        forall|i: int| 0 <= i < rows.len() ==> (#[trigger] rows[i]).len() == index.config.dimension,
        forall|i: int| 0 <= i < ids.len() ==> (#[trigger] ids[i]) < index.state@.codebook.len(),
    ensures
        storage::put_error(
            rows,
            ids,
            index.state@.codebook,
            index.state@.residual_codebook.len(),
            index.config.residual_bits,
        ) == if rows.len() > u32::MAX {
            Some(StorageError::InputShape)
        } else {
            None::<StorageError>
        },
        storage::row_length(rows) == index.config.dimension,
{
    assert(rows[0].len() == index.config.dimension);
    let c = index.config;
    assert(c.dimension <= c.dimension * c.centroids) by (nonlinear_arith)
        requires
            c.centroids > 0,
            c.dimension > 0,
    ;
    assert forall|i: int| 0 <= i < ids.len() implies storage::known_centroid(
        #[trigger] ids[i] as int,
        index.state@.codebook,
        index.config.dimension as nat,
    ) by {
        assert(index.state@.codebook[ids[i] as int].len() == index.config.dimension);
    }
}

/// Whether a state is the generation after a batch was written.
pub open spec fn is_after(state: State, before: StateView, staged: Seq<StagedDocument>) -> bool {
    state@ == update::upserts(before, staged).committed()
}

/// The vectors of the documents of a batch.
pub open spec fn vectors_of(batch: Seq<UpsertDocument>) -> Seq<Vec<Vec<Score>>> {
    batch.map_values(|document: UpsertDocument| document.vectors)
}

} // verus!
