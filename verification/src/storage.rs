//! Records of the two append-only segments: compressed token vectors, and
//! fixed-dimensional encodings of whole documents.

use vstd::prelude::*;
use vstd::arithmetic::power2::pow2;
use crate::arith;
use crate::bitpack;
use crate::error::StorageError;
use crate::score;
use crate::score::Score;

verus! {

/// `bytemuck::PodCastError`, which says why a cast between slices was refused.
#[verifier::external_type_specification]
#[verifier::external_body]
pub struct ExPodCastError(bytemuck::PodCastError);

/// The BLAKE3 digest of a byte string.
pub uninterp spec fn blake3_digest(bytes: Seq<u8>) -> Seq<u8>;

/// `blake3::hash`: the digest is a function of the bytes alone, and 32 bytes
/// long.
#[verifier::external_body]
pub(crate) fn blake3_hash(bytes: &[u8]) -> (r: [u8; 32])
    ensures
        r@ == blake3_digest(bytes@),
{
    *blake3::hash(bytes).as_bytes()
}

/// A hexadecimal digit, in lower case.
pub open spec fn hex_digit(value: int) -> char {
    "0123456789abcdef"@[value]
}

/// Two hexadecimal digits for each byte, the more significant one first.
pub open spec fn lower_hex(bytes: Seq<u8>) -> Seq<char> {
    Seq::new(
        2 * bytes.len(),
        |k: int| hex_digit(if k % 2 == 0 { bytes[k / 2] as int / 16 } else { bytes[k / 2] as int % 16 }),
    )
}

/// `blake3::Hash::to_hex`: the digest in lower-case hexadecimal.
#[verifier::external_body]
pub(crate) fn digest_hex(digest: [u8; 32]) -> (r: String)
    ensures
        r@ == lower_hex(digest@),
{
    blake3::Hash::from_bytes(digest).to_hex().to_string()
}

/// A byte of a number, the least significant one at 0.
pub open spec fn byte_of(word: u32, at: int) -> u8 {
    if at == 0 {
        (word % 256) as u8
    } else if at == 1 {
        (word / 0x100 % 256) as u8
    } else if at == 2 {
        (word / 0x1_0000 % 256) as u8
    } else {
        (word / 0x100_0000) as u8
    }
}

/// Whether the bytes are the words one after another, each with its least
/// significant byte first (`little`) or last.
pub open spec fn is_image(bytes: Seq<u8>, words: Seq<u32>, little: bool) -> bool {
    &&& bytes.len() == 4 * words.len()
    &&& forall|k: int|
        0 <= k < bytes.len() ==> #[trigger] bytes[k] == byte_of(words[k / 4], if little { k % 4 } else { 3 - k % 4 })
}

/// `bytemuck::cast_slice` from words to bytes: four bytes for each word, in the
/// byte order of the machine. Which of the two orders that is, is not stated.
#[verifier::external_body]
fn cast_to_bytes(words: &[u32]) -> (r: &[u8])
    ensures
        exists|little: bool| is_image(r@, words@, little),
{
    bytemuck::cast_slice(words)
}

/// `bytemuck::try_cast_slice` from bytes to words: where it succeeds, a word for
/// every four bytes, in the byte order of the machine. It refuses bytes that are
/// not aligned to words; whether they are is a matter of their address, and not
/// stated.
#[verifier::external_body]
fn cast_to_words(bytes: &[u8]) -> (r: Result<&[u32], bytemuck::PodCastError>)
    ensures
        r is Ok ==> exists|little: bool| is_image(bytes@, r->Ok_0@, little),
{
    bytemuck::try_cast_slice(bytes)
}

proof fn lemma_word_from_bytes(word: u32)
    ensures
        word == byte_of(word, 0) + 0x100 * byte_of(word, 1) + 0x1_0000 * byte_of(word, 2) + 0x100_0000 * byte_of(
            word,
            3,
        ),
{
}

/// Read in the byte order in which they were written, the bytes give back the
/// words.
pub proof fn law_image_determines_words(bytes: Seq<u8>, a: Seq<u32>, b: Seq<u32>, little: bool)
    requires
        is_image(bytes, a, little),
        is_image(bytes, b, little),
    ensures
        a == b,
{
    assert forall|i: int| 0 <= i < a.len() implies a[i] == b[i] by {
        assert forall|t: int| 0 <= t < 4 implies #[trigger] byte_of(a[i], t) == byte_of(b[i], t) by {
            let k = 4 * i + (if little { t } else { 3 - t });
            assert(bytes[k] == byte_of(a[k / 4], if little { k % 4 } else { 3 - k % 4 }));
            assert(bytes[k] == byte_of(b[k / 4], if little { k % 4 } else { 3 - k % 4 }));
            assert(k / 4 == i);
        }
        assert(byte_of(a[i], 0) == byte_of(b[i], 0) && byte_of(a[i], 1) == byte_of(b[i], 1));
        assert(byte_of(a[i], 2) == byte_of(b[i], 2) && byte_of(a[i], 3) == byte_of(b[i], 3));
        lemma_word_from_bytes(a[i]);
        lemma_word_from_bytes(b[i]);
    }
    assert(a =~= b);
}

/// Where a record stands in its segment, and what its digest was when it was
/// written.
#[derive(Clone, Copy, Debug)]
pub struct ObjectLocation {
    pub offset: u64,
    pub length: u64,
    pub checksum: Option<[u8; 32]>,
}

/// Why there is no record at a location of a segment of `len` bytes.
pub open spec fn record_error(len: nat, location: ObjectLocation) -> Option<StorageError> {
    if location.offset > usize::MAX {
        Some(StorageError::OffsetOverflow)
    } else if location.length > usize::MAX {
        Some(StorageError::LengthOverflow)
    } else if location.offset + location.length > usize::MAX {
        Some(StorageError::RecordRangeOverflow)
    } else if location.offset + location.length > len {
        Some(StorageError::OutsideSegment)
    } else {
        None
    }
}

/// The bytes at a location.
pub open spec fn record(segment: Seq<u8>, location: ObjectLocation) -> Seq<u8> {
    segment.subrange(location.offset as int, location.offset + location.length)
}

/// The bytes at a location.
pub fn record_bytes<'a>(mapped: &'a [u8], location: ObjectLocation) -> (r: Result<&'a [u8], StorageError>)
    ensures
        match record_error(mapped@.len(), location) {
            Some(e) => r == Err::<&[u8], StorageError>(e),
            None => r is Ok && r->Ok_0@ == record(mapped@, location),
        },
{
    if location.offset > usize::MAX as u64 {
        return Err(StorageError::OffsetOverflow);
    }
    if location.length > usize::MAX as u64 {
        return Err(StorageError::LengthOverflow);
    }
    let start: usize = location.offset as usize;
    let length: usize = location.length as usize;
    let end: usize = match start.checked_add(length) {
        Some(end) => end,
        None => {
            return Err(StorageError::RecordRangeOverflow);
        },
    };
    if end > mapped.len() {
        return Err(StorageError::OutsideSegment);
    }
    Ok(&mapped[start..end])
}

fn same_bytes(a: &[u8], b: &[u8]) -> (r: bool)
    ensures
        r == (a@ == b@),
{
    if a.len() != b.len() {
        return false;
    }
    let mut i: usize = 0;
    while i < a.len()
        invariant
            i <= a@.len(),
            a@.len() == b@.len(),
            forall|j: int| 0 <= j < i ==> a@[j] == b@[j],
        decreases a@.len() - i,
    {
        if a[i] != b[i] {
            assert(a@[i as int] != b@[i as int]);
            return false;
        }
        i += 1;
    }
    assert(a@ =~= b@);
    true
}

/// Why a record does not pass for the one that was written.
pub open spec fn verify_error(segment: Seq<u8>, location: ObjectLocation, required: bool) -> Option<StorageError> {
    match record_error(segment.len(), location) {
        Some(e) => Some(e),
        None => match location.checksum {
            Some(expected) => if blake3_digest(record(segment, location)) != expected@ {
                Some(StorageError::ChecksumMismatch)
            } else {
                None
            },
            None => if required {
                Some(StorageError::MissingChecksum)
            } else {
                None
            },
        },
    }
}

/// Holds a record to its digest. A location without a digest passes unless
/// digests are `required`.
pub fn verify_record(mapped: &[u8], location: ObjectLocation, required: bool) -> (r: Result<(), StorageError>)
    ensures
        match verify_error(mapped@, location, required) {
            Some(e) => r == Err::<(), StorageError>(e),
            None => r is Ok,
        },
{
    let bytes: &[u8] = match record_bytes(mapped, location) {
        Ok(bytes) => bytes,
        Err(e) => {
            return Err(e);
        },
    };
    match location.checksum {
        Some(expected) => {
            let actual: [u8; 32] = blake3_hash(bytes);
            if same_bytes(&actual, &expected) {
                Ok(())
            } else {
                Err(StorageError::ChecksumMismatch)
            }
        },
        None => {
            if required {
                Err(StorageError::MissingChecksum)
            } else {
                Ok(())
            }
        },
    }
}

/// The length to which a segment is cut back on opening: what was committed.
pub fn recovered_length(length: u64, committed: u64) -> (r: Result<u64, StorageError>)
    ensures
        length < committed ==> r == Err::<u64, StorageError>(StorageError::ShorterThanCommitted),
        length >= committed ==> r == Ok::<u64, StorageError>(committed),
{
    if length < committed {
        return Err(StorageError::ShorterThanCommitted);
    }
    Ok(committed)
}

/// The segment of fixed-dimensional encodings.
pub struct FixedVectorStore;

/// The zero bytes that bring a segment of `length` bytes to a multiple of four.
pub open spec fn padding(length: nat) -> nat {
    ((4 - length % 4) % 4) as nat
}

impl FixedVectorStore {
    /// What appending a vector to a segment of `length` bytes writes: so many
    /// zero bytes, then the bytes of the vector, which are found again at the
    /// location.
    pub fn put<'a>(length: u64, vector: &'a [Score]) -> (r: Result<(u64, &'a [u8], ObjectLocation), StorageError>)
        ensures
            length + padding(length as nat) > u64::MAX ==> r == Err::<(u64, &[u8], ObjectLocation), StorageError>(
                StorageError::FdeOffsetOverflow,
            ),
            length + padding(length as nat) <= u64::MAX ==> {
                &&& r is Ok
                &&& r->Ok_0.0 == padding(length as nat)
                &&& exists|little: bool| is_image(r->Ok_0.1@, vector@, little)
                &&& r->Ok_0.2.offset == length + padding(length as nat)
                &&& r->Ok_0.2.length == r->Ok_0.1@.len()
                &&& r->Ok_0.2.checksum is Some
                &&& r->Ok_0.2.checksum->0@ == blake3_digest(r->Ok_0.1@)
            },
    {
        let bytes: &'a [u8] = cast_to_bytes(vector);
        let pad: u64 = (4 - length % 4) % 4;
        let offset: u64 = match length.checked_add(pad) {
            Some(offset) => offset,
            None => {
                return Err(StorageError::FdeOffsetOverflow);
            },
        };
        let checksum: [u8; 32] = blake3_hash(bytes);
        Ok((pad, bytes, ObjectLocation { offset, length: bytes.len() as u64, checksum: Some(checksum) }))
    }

    /// The length to which the segment is cut back on opening.
    pub fn recover(length: u64, committed: u64) -> (r: Result<u64, StorageError>)
        ensures
            length < committed ==> r == Err::<u64, StorageError>(StorageError::ShorterThanCommitted),
            length >= committed ==> r == Ok::<u64, StorageError>(committed),
    {
        recovered_length(length, committed)
    }

    /// Whether a segment of `length` bytes can be mapped.
    pub fn map(length: u64) -> (r: Result<(), StorageError>)
        ensures
            length == 0 ==> r == Err::<(), StorageError>(StorageError::EmptyFdeSegment),
            length > 0 ==> r is Ok,
    {
        if length == 0 {
            Err(StorageError::EmptyFdeSegment)
        } else {
            Ok(())
        }
    }

    /// The words that a cast gave; where it gave none, the bytes are not aligned.
    pub fn aligned<'a>(cast: Result<&'a [Score], bytemuck::PodCastError>) -> (r: Result<&'a [Score], StorageError>)
        ensures
            match cast {
                Ok(words) => r == Ok::<&[Score], StorageError>(words),
                Err(_) => r == Err::<&[Score], StorageError>(StorageError::FdeUnaligned),
            },
    {
        match cast {
            Ok(words) => Ok(words),
            Err(_) => Err(StorageError::FdeUnaligned),
        }
    }

    /// The vector at a location. Bytes that are not aligned to words are refused;
    /// when that is the case is not stated.
    pub fn get<'a>(mapped: &'a [u8], location: ObjectLocation, dimension: usize) -> (r: Result<
        &'a [Score],
        StorageError,
    >)
        ensures
            record_error(mapped@.len(), location) is Some ==> r == Err::<&[Score], StorageError>(
                record_error(mapped@.len(), location)->0,
            ),
            record_error(mapped@.len(), location) is None && location.length != 4 * dimension ==> r == Err::<
                &[Score],
                StorageError,
            >(StorageError::FdeLength),
            record_error(mapped@.len(), location) is None && location.length == 4 * dimension && r is Err ==> r == Err::<
                &[Score],
                StorageError,
            >(StorageError::FdeUnaligned),
            r is Ok ==> r->Ok_0@.len() == dimension,
            r is Ok ==> exists|little: bool| is_image(record(mapped@, location), r->Ok_0@, little),
    {
        let bytes: &'a [u8] = match record_bytes(mapped, location) {
            Ok(bytes) => bytes,
            Err(e) => {
                return Err(e);
            },
        };
        let expected: usize = match dimension.checked_mul(4) {
            Some(expected) => expected,
            None => {
                return Err(StorageError::FdeLength);
            },
        };
        if bytes.len() != expected {
            return Err(StorageError::FdeLength);
        }
        let cast: Result<&'a [Score], bytemuck::PodCastError> = cast_to_words(bytes);
        proof {
            if cast is Ok {
                let little = choose|little: bool| is_image(bytes@, cast->Ok_0@, little);
                assert(is_image(record(mapped@, location), cast->Ok_0@, little));
            }
        }
        Self::aligned(cast)
    }
}

/// A record lies behind everything that its segment held before, on a multiple of
/// four, and the segment gives its bytes back.
pub proof fn law_fixed_record_is_found(
    segment: Seq<u8>,
    bytes: Seq<u8>,
    location: ObjectLocation,
)
    requires
        segment.len() + padding(segment.len()) + bytes.len() <= usize::MAX,
        location.offset == segment.len() + padding(segment.len()),
        location.length == bytes.len(),
    ensures
        location.offset >= segment.len(),
        location.offset % 4 == 0,
        ({
            let after = segment + Seq::new(padding(segment.len()), |i: int| 0u8) + bytes;
            &&& record_error(after.len(), location) is None
            &&& record(after, location) == bytes
            &&& after.take(segment.len() as int) == segment
        }),
{
    let after = segment + Seq::new(padding(segment.len()), |i: int| 0u8) + bytes;
    assert(record(after, location) =~= bytes);
    assert(after.take(segment.len() as int) =~= segment);
}

/// The segment of compressed token vectors.
pub struct CompressedVectorStore;

/// The numbers of a document, row after row, and the length of a row.
pub struct FlatVectors {
    pub values: Vec<Score>,
    pub dimension: usize,
}

/// The four bytes of a number, the least significant one first.
pub open spec fn le32(word: u32) -> Seq<u8> {
    seq![byte_of(word, 0), byte_of(word, 1), byte_of(word, 2), byte_of(word, 3)]
}

/// The number whose bytes, the least significant one first, start at `at`.
pub open spec fn le32_at(bytes: Seq<u8>, at: int) -> int {
    bytes[at] + 0x100 * bytes[at + 1] + 0x1_0000 * bytes[at + 2] + 0x100_0000 * bytes[at + 3]
}

/// The bytes of numbers one after another.
pub open spec fn le32_all(words: Seq<u32>) -> Seq<u8> {
    Seq::new(4 * words.len(), |k: int| byte_of(words[k / 4], k % 4))
}

/// The layout of a compressed document: how many rows, their length, the bits of
/// a code, three zero bytes, the number `1.0`, the centroid of each row, and the
/// packed codes.
pub open spec fn plaid_record(dimension: u32, bits: u8, ids: Seq<u32>, codes: Seq<u8>) -> Seq<u8> {
    le32(ids.len() as u32) + le32(dimension) + seq![bits, 0u8, 0u8, 0u8] + le32(score::ONE) + le32_all(ids)
        + bitpack::packed(codes, bits as nat)
}

/// The distances of a number from the levels of a codebook around a center.
pub open spec fn gaps<G: Fn(Score, Score, Score) -> Score>(
    gap: G,
    value: Score,
    center: Score,
    codebook: Seq<Score>,
) -> Seq<Score> {
    Seq::new(codebook.len(), |l: int| arith::ternary(gap, value, center, codebook[l]))
}

/// The first of the levels that are nearest.
pub open spec fn residual_code<G: Fn(Score, Score, Score) -> Score>(
    gap: G,
    value: Score,
    center: Score,
    codebook: Seq<Score>,
) -> int {
    choose|at: int| score::is_first_least(gaps(gap, value, center, codebook), at)
}

/// The codes of a document, row after row.
pub open spec fn residual_codes<G: Fn(Score, Score, Score) -> Score>(
    gap: G,
    vectors: Seq<Seq<Score>>,
    ids: Seq<u32>,
    centroids: Seq<Seq<Score>>,
    codebook: Seq<Score>,
    dimension: nat,
) -> Seq<u8> {
    Seq::new(
        vectors.len() * dimension,
        |k: int|
            residual_code(
                gap,
                vectors[k / dimension as int][k % dimension as int],
                centroids[ids[k / dimension as int] as int][k % dimension as int],
                codebook,
            ) as u8,
    )
}

/// Whether the centroid exists and its rows have the given length.
pub open spec fn known_centroid(id: int, centroids: Seq<Seq<Score>>, dimension: nat) -> bool {
    0 <= id < centroids.len() && centroids[id].len() == dimension
}

/// The length of the rows of a document: that of its first row.
pub open spec fn row_length(vectors: Seq<Seq<Score>>) -> nat {
    if vectors.len() == 0 {
        0
    } else {
        vectors[0].len()
    }
}

/// Why a document cannot be compressed.
pub open spec fn put_error(
    vectors: Seq<Seq<Score>>,
    ids: Seq<u32>,
    centroids: Seq<Seq<Score>>,
    levels: nat,
    bits: u8,
) -> Option<StorageError> {
    let dimension = row_length(vectors);
    if dimension == 0 || vectors.len() > u32::MAX || dimension > u32::MAX || ids.len() != vectors.len() || !(1 <= bits
        <= 8) || (exists|i: int| 0 <= i < vectors.len() && (#[trigger] vectors[i]).len() != dimension) || (exists|
        i: int,
    |
        0 <= i < ids.len() && !known_centroid(#[trigger] ids[i] as int, centroids, dimension)) {
        Some(StorageError::InputShape)
    } else if levels != pow2(bits as nat) {
        Some(StorageError::CodebookBits)
    } else {
        None
    }
}

/// Why a record does not hold a document under these codebooks.
pub open spec fn decode_error(bytes: Seq<u8>, centroids: Seq<Seq<Score>>, levels: nat) -> Option<StorageError> {
    let count = le32_at(bytes, 0);
    let dimension = le32_at(bytes, 4);
    if bytes.len() < 16 {
        Some(StorageError::TruncatedObject)
    } else if count * 4 + 16 > usize::MAX {
        Some(StorageError::CountOverflow)
    } else if count * dimension > usize::MAX {
        Some(StorageError::DimensionsOverflow)
    } else if count == 0 || dimension == 0 || bytes[8] == 0 || bytes[8] > 8 || bytes.len() < 16 + 4 * count
        || bytes.subrange(9, 12) != seq![0u8, 0u8, 0u8] || bytes.subrange(12, 16) != le32(score::ONE) {
        Some(StorageError::Header)
    } else if exists|i: int|
        0 <= i < count && !known_centroid(#[trigger] le32_at(bytes, 16 + 4 * i), centroids, dimension as nat) {
        Some(StorageError::UnknownCentroid)
    } else {
        match bitpack::unpack_error((bytes.len() - 16 - 4 * count) as nat, bytes[8] as nat, (count * dimension) as nat) {
            Some(e) => Some(e),
            None => if levels != pow2(bytes[8] as nat) {
                Some(StorageError::CodebookSize)
            } else {
                None
            },
        }
    }
}

/// The centroids that a record names, row by row.
pub open spec fn record_ids(bytes: Seq<u8>) -> Seq<u32> {
    Seq::new(le32_at(bytes, 0) as nat, |i: int| le32_at(bytes, 16 + 4 * i) as u32)
}

/// The codes that a record holds, row after row.
pub open spec fn record_codes(bytes: Seq<u8>) -> Seq<u8> {
    bitpack::unpacked(
        bytes.skip(16 + 4 * le32_at(bytes, 0)),
        bytes[8] as nat,
        (le32_at(bytes, 0) * le32_at(bytes, 4)) as nat,
    )
}

/// The numbers of the document that a record holds: each the sum of its row's
/// centroid and the level that its code names.
pub open spec fn decoded<A: Fn(Score, Score) -> Score>(
    add: A,
    bytes: Seq<u8>,
    centroids: Seq<Seq<Score>>,
    codebook: Seq<Score>,
) -> Seq<Score> {
    let dimension = le32_at(bytes, 4);
    Seq::new(
        (le32_at(bytes, 0) * dimension) as nat,
        |k: int|
            arith::binary(
                add,
                centroids[record_ids(bytes)[k / dimension] as int][k % dimension],
                codebook[record_codes(bytes)[k] as int],
            ),
    )
}

/// Appends the bytes of a number, the least significant one first.
fn push_le32(out: &mut Vec<u8>, word: u32)
    ensures
        final(out)@ == old(out)@ + le32(word),
{
    out.push((word % 256) as u8);
    out.push((word / 0x100 % 256) as u8);
    out.push((word / 0x1_0000 % 256) as u8);
    out.push((word / 0x100_0000) as u8);
    assert(out@ =~= old(out)@ + le32(word));
}

/// Reads a number from its bytes, the least significant one first.
fn read_le32(bytes: &[u8], at: usize) -> (r: u32)
    requires
        at + 4 <= bytes@.len(),
    ensures
        r == le32_at(bytes@, at as int),
{
    bytes[at] as u32 + 0x100 * bytes[at + 1] as u32 + 0x1_0000 * bytes[at + 2] as u32 + 0x100_0000 * bytes[at
        + 3] as u32
}

/// The levels of a codebook of so many bits.
fn level_count(bits: u8) -> (r: usize)
    requires
        bits <= 8,
    ensures
        r == pow2(bits as nat),
{
    proof {
        vstd::arithmetic::power2::lemma2_to64();
    }
    if bits == 0 {
        1
    } else if bits == 1 {
        2
    } else if bits == 2 {
        4
    } else if bits == 3 {
        8
    } else if bits == 4 {
        16
    } else if bits == 5 {
        32
    } else if bits == 6 {
        64
    } else if bits == 7 {
        128
    } else {
        256
    }
}

proof fn lemma_row_and_column(row: int, column: int, dimension: int)
    requires
        0 <= row,
        0 <= column < dimension,
    ensures
        (row * dimension + column) / dimension == row,
        (row * dimension + column) % dimension == column,
{
    vstd::arithmetic::div_mod::lemma_fundamental_div_mod_converse(
        row * dimension + column,
        dimension,
        row,
        column,
    );
}

/// The first of the levels that are nearest to a number around a center.
fn nearest_level<G: Fn(Score, Score, Score) -> Score>(
    gap: &G,
    value: Score,
    center: Score,
    codebook: &[Score],
) -> (r: usize)
    requires
        arith::is_ternary(*gap),
        codebook@.len() > 0,
    ensures
        r < codebook@.len(),
        r == residual_code(*gap, value, center, codebook@),
{
    let mut distances: Vec<Score> = Vec::with_capacity(codebook.len());
    let mut i: usize = 0;
    while i < codebook.len()
        invariant
            i <= codebook@.len(),
            arith::is_ternary(*gap),
            distances@ == gaps(*gap, value, center, codebook@).take(i as int),
        decreases codebook@.len() - i,
    {
        distances.push(arith::apply_ternary(gap, value, center, codebook[i]));
        i += 1;
    }
    assert(distances@ =~= gaps(*gap, value, center, codebook@));
    let at: usize = score::first_least(distances.as_slice());
    proof {
        lemma_first_least_unique(distances@, at as int, residual_code(*gap, value, center, codebook@));
    }
    at
}

/// A first least element exists.
pub(crate) proof fn lemma_first_least_exists(values: Seq<Score>) -> (at: int)
    requires
        values.len() > 0,
    ensures
        score::is_first_least(values, at),
    decreases values.len(),
{
    if values.len() == 1 {
        0
    } else {
        let front = values.drop_last();
        let before = lemma_first_least_exists(front);
        let last = values.len() - 1;
        assert forall|i: int| 0 <= i < front.len() implies score::total_key(values[before]) <= score::total_key(
            #[trigger] values[i],
        ) by {
            assert(score::total_key(front[before]) <= score::total_key(front[i]));
        }
        assert forall|i: int| 0 <= i < before implies score::total_key(values[before]) < score::total_key(
            #[trigger] values[i],
        ) by {
            assert(score::total_key(front[before]) < score::total_key(front[i]));
        }
        if score::total_key(values[last]) < score::total_key(values[before]) {
            last
        } else {
            before
        }
    }
}

proof fn lemma_first_least_unique(values: Seq<Score>, a: int, b: int)
    requires
        score::is_first_least(values, a),
        score::is_first_least(values, b),
    ensures
        a == b,
{
    if a < b {
        assert(score::total_key(values[b]) < score::total_key(values[a]));
    }
    if b < a {
        assert(score::total_key(values[a]) < score::total_key(values[b]));
    }
}

fn known<'a>(id: u32, centroids: &'a [Vec<Score>], dimension: usize) -> (r: bool)
    ensures
        r == known_centroid(id as int, arith::rows(centroids@), dimension as nat),
{
    (id as usize) < centroids.len() && centroids[id as usize].len() == dimension
}

fn rows_have_length(vectors: &[Vec<Score>], dimension: usize) -> (r: bool)
    ensures
        r == (forall|i: int| 0 <= i < vectors@.len() ==> (#[trigger] arith::rows(vectors@)[i]).len() == dimension),
{
    let mut i: usize = 0;
    while i < vectors.len()
        invariant
            i <= vectors@.len(),
            forall|j: int| 0 <= j < i ==> (#[trigger] arith::rows(vectors@)[j]).len() == dimension,
        decreases vectors@.len() - i,
    {
        if vectors[i].len() != dimension {
            assert(arith::rows(vectors@)[i as int].len() != dimension);
            return false;
        }
        i += 1;
    }
    true
}

fn all_known(ids: &[u32], centroids: &[Vec<Score>], dimension: usize) -> (r: bool)
    ensures
        r == (forall|i: int|
            0 <= i < ids@.len() ==> known_centroid(#[trigger] ids@[i] as int, arith::rows(centroids@), dimension as nat)),
{
    let mut i: usize = 0;
    while i < ids.len()
        invariant
            i <= ids@.len(),
            forall|j: int|
                0 <= j < i ==> known_centroid(#[trigger] ids@[j] as int, arith::rows(centroids@), dimension as nat),
        decreases ids@.len() - i,
    {
        if !known(ids[i], centroids, dimension) {
            return false;
        }
        i += 1;
    }
    true
}

/// The centroids that a record names, row by row.
fn read_ids(bytes: &[u8], count: usize) -> (r: Vec<u32>)
    requires
        bytes@.len() >= 16 + 4 * count,
        16 + 4 * count <= usize::MAX,
    ensures
        r@ == Seq::new(count as nat, |i: int| le32_at(bytes@, 16 + 4 * i) as u32),
        forall|i: int| 0 <= i < count ==> #[trigger] r@[i] == le32_at(bytes@, 16 + 4 * i),
{
    let mut ids: Vec<u32> = Vec::new();
    let mut i: usize = 0;
    while i < count
        invariant
            i <= count,
            bytes@.len() >= 16 + 4 * count,
            16 + 4 * count <= usize::MAX,
            ids@.len() == i,
            forall|j: int| 0 <= j < i ==> #[trigger] ids@[j] == le32_at(bytes@, 16 + 4 * j),
        decreases count - i,
    {
        ids.push(read_le32(bytes, 16 + 4 * i));
        i += 1;
    }
    assert(ids@ =~= Seq::new(count as nat, |i: int| le32_at(bytes@, 16 + 4 * i) as u32));
    ids
}

impl CompressedVectorStore {
    /// The codes of a document, row after row.
    fn codes<G: Fn(Score, Score, Score) -> Score>(
        gap: &G,
        vectors: &[Vec<Score>],
        ids: &[u32],
        centroids: &[Vec<Score>],
        codebook: &[Score],
        dimension: usize,
    ) -> (r: Vec<u8>)
        requires
            arith::is_ternary(*gap),
            0 < dimension,
            0 < codebook@.len() <= 256,
            ids@.len() == vectors@.len(),
            forall|i: int| 0 <= i < vectors@.len() ==> (#[trigger] vectors@[i])@.len() == dimension,
            forall|i: int|
                0 <= i < ids@.len() ==> known_centroid(#[trigger] ids@[i] as int, arith::rows(centroids@), dimension as nat),
        ensures
            r@ == residual_codes(
                *gap,
                arith::rows(vectors@),
                ids@,
                arith::rows(centroids@),
                codebook@,
                dimension as nat,
            ),
            forall|k: int| 0 <= k < r@.len() ==> (#[trigger] r@[k]) < codebook@.len(),
    {
        let ghost spec_codes = residual_codes(
            *gap,
            arith::rows(vectors@),
            ids@,
            arith::rows(centroids@),
            codebook@,
            dimension as nat,
        );
        let mut out: Vec<u8> = Vec::new();
        let mut row: usize = 0;
        proof {
            assert(0 * dimension == 0) by (nonlinear_arith);
        }
        while row < vectors.len()
            invariant
                arith::is_ternary(*gap),
                0 < dimension,
                0 < codebook@.len() <= 256,
                ids@.len() == vectors@.len(),
                forall|i: int| 0 <= i < vectors@.len() ==> (#[trigger] vectors@[i])@.len() == dimension,
                forall|i: int|
                    0 <= i < ids@.len() ==> known_centroid(
                        #[trigger] ids@[i] as int,
                        arith::rows(centroids@),
                        dimension as nat,
                    ),
                spec_codes == residual_codes(
                    *gap,
                    arith::rows(vectors@),
                    ids@,
                    arith::rows(centroids@),
                    codebook@,
                    dimension as nat,
                ),
                row <= vectors@.len(),
                out@.len() == row * dimension,
                out@.len() <= spec_codes.len(),
                forall|k: int| 0 <= k < out@.len() ==> #[trigger] out@[k] == spec_codes[k] && out@[k] < codebook@.len(),
            decreases vectors@.len() - row,
        {
            let vector: &Vec<Score> = &vectors[row];
            let center: &Vec<Score> = &centroids[ids[row] as usize];
            let mut col: usize = 0;
            proof {
                assert((row + 1) * dimension == row * dimension + dimension) by (nonlinear_arith);
                assert((row + 1) * dimension <= vectors@.len() * dimension) by (nonlinear_arith)
                    requires
                        row + 1 <= vectors@.len(),
                ;
            }
            while col < dimension
                invariant
                    arith::is_ternary(*gap),
                    0 < dimension,
                    0 < codebook@.len() <= 256,
                    row < vectors@.len(),
                    ids@.len() == vectors@.len(),
                    vector@ == arith::rows(vectors@)[row as int],
                    center@ == arith::rows(centroids@)[ids@[row as int] as int],
                    vector@.len() == dimension,
                    center@.len() == dimension,
                    spec_codes == residual_codes(
                        *gap,
                        arith::rows(vectors@),
                        ids@,
                        arith::rows(centroids@),
                        codebook@,
                        dimension as nat,
                    ),
                    row * dimension + dimension <= spec_codes.len(),
                    col <= dimension,
                    out@.len() == row * dimension + col,
                    forall|k: int|
                        0 <= k < out@.len() ==> #[trigger] out@[k] == spec_codes[k] && out@[k] < codebook@.len(),
                decreases dimension - col,
            {
                let code: usize = nearest_level(gap, vector[col], center[col], codebook);
                proof {
                    lemma_row_and_column(row as int, col as int, dimension as int);
                }
                out.push(code as u8);
                col += 1;
            }
            row += 1;
        }
        assert(out@ =~= spec_codes);
        out
    }

    /// What appending a document to a segment of `length` bytes writes: the
    /// bytes of its record, and where they are found again.
    ///
    /// `gap` gives the distance of a number from a level around a center:
    /// `|value - center - level|`.
    pub fn put<G: Fn(Score, Score, Score) -> Score>(
        length: u64,
        vectors: &[Vec<Score>],
        centroid_ids: &[u32],
        centroids: &[Vec<Score>],
        residual_codebook: &[Score],
        bits: u8,
        gap: &G,
    ) -> (r: Result<(ObjectLocation, Vec<u8>), StorageError>)
        requires
            arith::is_ternary(*gap),
        ensures
            match put_error(
                arith::rows(vectors@),
                centroid_ids@,
                arith::rows(centroids@),
                residual_codebook@.len(),
                bits,
            ) {
                Some(e) => r == Err::<(ObjectLocation, Vec<u8>), StorageError>(e),
                None => {
                    let dimension = row_length(arith::rows(vectors@));
                    &&& r is Ok
                    &&& r->Ok_0.1@ == plaid_record(
                        dimension as u32,
                        bits,
                        centroid_ids@,
                        residual_codes(
                            *gap,
                            arith::rows(vectors@),
                            centroid_ids@,
                            arith::rows(centroids@),
                            residual_codebook@,
                            dimension,
                        ),
                    )
                    &&& r->Ok_0.0.offset == length
                    &&& r->Ok_0.0.length == r->Ok_0.1@.len()
                    &&& r->Ok_0.0.checksum is Some
                    &&& r->Ok_0.0.checksum->0@ == blake3_digest(r->Ok_0.1@)
                },
            },
    {
        let ghost v = arith::rows(vectors@);
        let ghost c = arith::rows(centroids@);
        let dimension: usize = if vectors.len() == 0 {
            0
        } else {
            vectors[0].len()
        };
        assert(dimension == row_length(v));
        if dimension == 0 || vectors.len() > u32::MAX as usize || dimension > u32::MAX as usize || centroid_ids.len()
            != vectors.len() || bits < 1 || bits > 8 {
            return Err(StorageError::InputShape);
        }
        if !rows_have_length(vectors, dimension) || !all_known(centroid_ids, centroids, dimension) {
            return Err(StorageError::InputShape);
        }
        if residual_codebook.len() != level_count(bits) {
            return Err(StorageError::CodebookBits);
        }
        proof {
            vstd::arithmetic::power2::lemma2_to64();
            assert(0 < pow2(bits as nat) <= 256) by {
                vstd::arithmetic::power2::lemma_pow2_pos(bits as nat);
                if bits < 8 {
                    vstd::arithmetic::power2::lemma_pow2_strictly_increases(bits as nat, 8);
                }
            }
            assert forall|k: int| 0 <= k < vectors@.len() implies (#[trigger] vectors@[k])@.len() == dimension by {
                assert(v[k].len() == dimension);
            }
        }
        let codes: Vec<u8> = Self::codes(gap, vectors, centroid_ids, centroids, residual_codebook, dimension);
        let packed: Vec<u8> = bitpack::pack(codes.as_slice(), bits);
        let mut bytes: Vec<u8> = Vec::new();
        push_le32(&mut bytes, vectors.len() as u32);
        push_le32(&mut bytes, dimension as u32);
        bytes.push(bits);
        bytes.push(0);
        bytes.push(0);
        bytes.push(0);
        push_le32(&mut bytes, score::ONE);
        let ghost head = le32(centroid_ids@.len() as u32) + le32(dimension as u32) + seq![bits, 0u8, 0u8, 0u8] + le32(
            score::ONE,
        );
        assert(bytes@ =~= head);
        let mut n: usize = 0;
        while n < centroid_ids.len()
            invariant
                n <= centroid_ids@.len(),
                bytes@ == head + le32_all(centroid_ids@.take(n as int)),
            decreases centroid_ids@.len() - n,
        {
            push_le32(&mut bytes, centroid_ids[n]);
            assert(le32_all(centroid_ids@.take(n + 1)) =~= le32_all(centroid_ids@.take(n as int)) + le32(
                centroid_ids@[n as int],
            ));
            n += 1;
        }
        assert(centroid_ids@.take(n as int) =~= centroid_ids@);
        let mut p: usize = 0;
        while p < packed.len()
            invariant
                p <= packed@.len(),
                bytes@ == head + le32_all(centroid_ids@) + packed@.take(p as int),
            decreases packed@.len() - p,
        {
            bytes.push(packed[p]);
            assert(packed@.take(p + 1) =~= packed@.take(p as int).push(packed@[p as int]));
            p += 1;
        }
        assert(packed@.take(p as int) =~= packed@);
        let checksum: [u8; 32] = blake3_hash(bytes.as_slice());
        Ok((ObjectLocation { offset: length, length: bytes.len() as u64, checksum: Some(checksum) }, bytes))
    }

    /// The length to which the segment is cut back on opening.
    pub fn recover(length: u64, committed: u64) -> (r: Result<u64, StorageError>)
        ensures
            length < committed ==> r == Err::<u64, StorageError>(StorageError::ShorterThanCommitted),
            length >= committed ==> r == Ok::<u64, StorageError>(committed),
    {
        recovered_length(length, committed)
    }

    /// Whether a segment of `length` bytes can be mapped.
    pub fn map(length: u64) -> (r: Result<(), StorageError>)
        ensures
            length == 0 ==> r == Err::<(), StorageError>(StorageError::EmptyVectorSegment),
            length > 0 ==> r is Ok,
    {
        if length == 0 {
            Err(StorageError::EmptyVectorSegment)
        } else {
            Ok(())
        }
    }

    /// The first `count` centroids that a record names, row by row.
    pub fn stored_ids(mapped: &[u8], location: ObjectLocation, count: usize) -> (r: Option<Vec<u32>>)
        ensures
            record_error(mapped@.len(), location) is None && 16 + 4 * count <= location.length ==> r is Some
                && r->0@ == Seq::new(
                count as nat,
                |i: int| le32_at(record(mapped@, location), 16 + 4 * i) as u32,
            ),
            !(record_error(mapped@.len(), location) is None && 16 + 4 * count <= location.length) ==> r is None,
    {
        match record_bytes(mapped, location) {
            Ok(bytes) => {
                if bytes.len() < 16 || (bytes.len() - 16) / 4 < count {
                    return None;
                }
                Some(read_ids(bytes, count))
            },
            Err(_) => None,
        }
    }

    /// The document at a location.
    pub fn decode<A: Fn(Score, Score) -> Score>(
        mapped: &[u8],
        location: ObjectLocation,
        centroids: &[Vec<Score>],
        residual_codebook: &[Score],
        add: &A,
    ) -> (r: Result<FlatVectors, StorageError>)
        requires
            arith::is_binary(*add),
        ensures
            match record_error(mapped@.len(), location) {
                Some(e) => r == Err::<FlatVectors, StorageError>(e),
                None => {
                    let bytes = record(mapped@, location);
                    match decode_error(bytes, arith::rows(centroids@), residual_codebook@.len()) {
                        Some(e) => r == Err::<FlatVectors, StorageError>(e),
                        None => {
                            &&& r is Ok
                            &&& r->Ok_0.dimension == le32_at(bytes, 4)
                            &&& r->Ok_0.values@ == decoded(*add, bytes, arith::rows(centroids@), residual_codebook@)
                        },
                    }
                },
            },
    {
        let mut values: Vec<Score> = Vec::new();
        match Self::decode_into(mapped, location, centroids, residual_codebook, &mut values, add) {
            Ok(dimension) => Ok(FlatVectors { values, dimension }),
            Err(e) => Err(e),
        }
    }

    /// Reads the document at a location into `scratch` and gives the length of
    /// its rows. A failure leaves `scratch` as it was.
    ///
    /// `add` gives the sum of a centroid's number and a level.
    pub fn decode_into<A: Fn(Score, Score) -> Score>(
        mapped: &[u8],
        location: ObjectLocation,
        centroids: &[Vec<Score>],
        residual_codebook: &[Score],
        scratch: &mut Vec<Score>,
        add: &A,
    ) -> (r: Result<usize, StorageError>)
        requires
            arith::is_binary(*add),
        ensures
            r is Err ==> final(scratch)@ == old(scratch)@,
            match record_error(mapped@.len(), location) {
                Some(e) => r == Err::<usize, StorageError>(e),
                None => {
                    let bytes = record(mapped@, location);
                    match decode_error(bytes, arith::rows(centroids@), residual_codebook@.len()) {
                        Some(e) => r == Err::<usize, StorageError>(e),
                        None => {
                            &&& r is Ok
                            &&& r->Ok_0 == le32_at(bytes, 4)
                            &&& final(scratch)@ == decoded(*add, bytes, arith::rows(centroids@), residual_codebook@)
                        },
                    }
                },
            },
    {
        let bytes: &[u8] = match record_bytes(mapped, location) {
            Ok(bytes) => bytes,
            Err(e) => {
                return Err(e);
            },
        };
        let ghost c = arith::rows(centroids@);
        if bytes.len() < 16 {
            return Err(StorageError::TruncatedObject);
        }
        let count: usize = read_le32(bytes, 0) as usize;
        let dimension: usize = read_le32(bytes, 4) as usize;
        let bits: u8 = bytes[8];
        let ids_end: usize = match count.checked_mul(4) {
            Some(n) => match n.checked_add(16) {
                Some(n) => n,
                None => {
                    return Err(StorageError::CountOverflow);
                },
            },
            None => {
                return Err(StorageError::CountOverflow);
            },
        };
        let total: usize = match count.checked_mul(dimension) {
            Some(n) => n,
            None => {
                return Err(StorageError::DimensionsOverflow);
            },
        };
        if count == 0 || dimension == 0 || bits == 0 || bits > 8 || bytes.len() < ids_end || !same_bytes(
            &bytes[9..12],
            &[0, 0, 0],
        ) || !same_bytes(&bytes[12..16], &[0, 0, 0x80, 0x3f]) {
            proof {
                assert([0u8, 0u8, 0u8]@ =~= seq![0u8, 0u8, 0u8]);
                assert([0u8, 0u8, 0x80u8, 0x3fu8]@ =~= le32(score::ONE));
            }
            return Err(StorageError::Header);
        }
        proof {
            assert([0u8, 0u8, 0u8]@ =~= seq![0u8, 0u8, 0u8]);
            assert([0u8, 0u8, 0x80u8, 0x3fu8]@ =~= le32(score::ONE));
        }
        let ids: Vec<u32> = read_ids(bytes, count);
        assert(ids@ =~= record_ids(bytes@));
        if !all_known(ids.as_slice(), centroids, dimension) {
            proof {
                let j = choose|j: int|
                    0 <= j < ids@.len() && !known_centroid(#[trigger] ids@[j] as int, c, dimension as nat);
                assert(!known_centroid(le32_at(bytes@, 16 + 4 * j), c, dimension as nat));
            }
            return Err(StorageError::UnknownCentroid);
        }
        proof {
            assert forall|j: int| 0 <= j < count implies known_centroid(
                #[trigger] le32_at(bytes@, 16 + 4 * j),
                c,
                dimension as nat,
            ) by {
                assert(known_centroid(ids@[j] as int, c, dimension as nat));
            }
        }
        let tail: &[u8] = &bytes[ids_end..bytes.len()];
        assert(tail@ =~= bytes@.skip(16 + 4 * count as int));
        let codes: Vec<u8> = match bitpack::unpack(tail, bits, total) {
            Ok(codes) => codes,
            Err(e) => {
                return Err(e);
            },
        };
        if residual_codebook.len() != level_count(bits) {
            return Err(StorageError::CodebookSize);
        }
        assert(codes@ == record_codes(bytes@));
        proof {
            assert forall|k: int| 0 <= k < codes@.len() implies (#[trigger] codes@[k]) < residual_codebook@.len() by {
                vstd::arithmetic::power2::lemma2_to64();
                vstd::arithmetic::power2::lemma_pow2_pos(bits as nat);
                if bits < 8 {
                    vstd::arithmetic::power2::lemma_pow2_strictly_increases(bits as nat, 8);
                }
                let value = bitpack::digits_value(tail@, 8);
                vstd::arithmetic::div_mod::lemma_mod_bound(
                    (value / pow2(bits as nat * k as nat)) as int,
                    pow2(bits as nat) as int,
                );
            }
        }
        scratch.clear();
        let ghost values = decoded(*add, bytes@, c, residual_codebook@);
        let mut row: usize = 0;
        proof {
            assert(0 * dimension == 0) by (nonlinear_arith);
        }
        while row < count
            invariant
                arith::is_binary(*add),
                0 < dimension,
                count == ids@.len(),
                total == count * dimension,
                codes@.len() == total,
                c == arith::rows(centroids@),
                ids@ == record_ids(bytes@),
                codes@ == record_codes(bytes@),
                count == le32_at(bytes@, 0),
                dimension == le32_at(bytes@, 4),
                forall|j: int| 0 <= j < count ==> known_centroid(#[trigger] ids@[j] as int, c, dimension as nat),
                forall|k: int| 0 <= k < codes@.len() ==> (#[trigger] codes@[k]) < residual_codebook@.len(),
                values == decoded(*add, bytes@, c, residual_codebook@),
                row <= count,
                scratch@.len() == row * dimension,
                forall|k: int| 0 <= k < scratch@.len() ==> #[trigger] scratch@[k] == values[k],
            decreases count - row,
        {
            let center: &Vec<Score> = &centroids[ids[row] as usize];
            let mut col: usize = 0;
            proof {
                assert((row + 1) * dimension == row * dimension + dimension) by (nonlinear_arith);
                assert((row + 1) * dimension <= count * dimension) by (nonlinear_arith)
                    requires
                        row + 1 <= count,
                ;
            }
            while col < dimension
                invariant
                    arith::is_binary(*add),
                    0 < dimension,
                    row < count,
                    count == ids@.len(),
                    total == count * dimension,
                    row * dimension + dimension <= total,
                    codes@.len() == total,
                    c == arith::rows(centroids@),
                    ids@ == record_ids(bytes@),
                    codes@ == record_codes(bytes@),
                    count == le32_at(bytes@, 0),
                    dimension == le32_at(bytes@, 4),
                    center@ == c[ids@[row as int] as int],
                    center@.len() == dimension,
                    forall|k: int| 0 <= k < codes@.len() ==> (#[trigger] codes@[k]) < residual_codebook@.len(),
                    values == decoded(*add, bytes@, c, residual_codebook@),
                    col <= dimension,
                    scratch@.len() == row * dimension + col,
                    forall|k: int| 0 <= k < scratch@.len() ==> #[trigger] scratch@[k] == values[k],
                decreases dimension - col,
            {
                proof {
                    lemma_row_and_column(row as int, col as int, dimension as int);
                    assert(values.len() == total);
                }
                let residual: Score = residual_codebook[codes[row * dimension + col] as usize];
                scratch.push(arith::apply_binary(add, center[col], residual));
                col += 1;
            }
            row += 1;
        }
        assert(scratch@ =~= values);
        Ok(dimension)
    }
}

/// A record gives back what was put into it: the number of rows and their
/// length, each row's centroid, and every code; and it decodes without an error
/// under the codebooks with which it was written.
pub proof fn law_decode_of_put(dimension: u32, bits: u8, ids: Seq<u32>, codes: Seq<u8>, centroids: Seq<Seq<Score>>)
    requires
        1 <= bits <= 8,
        0 < ids.len() <= u32::MAX,
        0 < dimension,
        codes.len() == ids.len() * dimension,
        bitpack::digits_fit(codes, bits as nat),
        ids.len() * 4 + 16 <= usize::MAX,
        codes.len() * bits + 7 <= usize::MAX,
        forall|i: int| 0 <= i < ids.len() ==> known_centroid(#[trigger] ids[i] as int, centroids, dimension as nat),
    ensures
        ({
            let bytes = plaid_record(dimension, bits, ids, codes);
            &&& le32_at(bytes, 0) == ids.len()
            &&& le32_at(bytes, 4) == dimension
            &&& bytes[8] == bits
            &&& record_ids(bytes) == ids
            &&& record_codes(bytes) == codes
            &&& decode_error(bytes, centroids, pow2(bits as nat)) is None
        }),
{
    let bytes = plaid_record(dimension, bits, ids, codes);
    let packed = bitpack::packed(codes, bits as nat);
    let n = ids.len();
    assert(bytes.len() == 16 + 4 * n + packed.len());
    assert(forall|k: int| 0 <= k < 4 ==> #[trigger] bytes[k] == le32(n as u32)[k]);
    assert(forall|k: int| 4 <= k < 8 ==> #[trigger] bytes[k] == le32(dimension)[k - 4]);
    lemma_word_from_bytes(n as u32);
    lemma_word_from_bytes(dimension);
    assert(le32_at(bytes, 0) == n);
    assert(le32_at(bytes, 4) == dimension);
    assert(bytes.subrange(9, 12) =~= seq![0u8, 0u8, 0u8]);
    assert(bytes.subrange(12, 16) =~= le32(score::ONE));
    assert forall|i: int| 0 <= i < n implies #[trigger] le32_at(bytes, 16 + 4 * i) == ids[i] by {
        let all = le32_all(ids);
        assert forall|t: int| 0 <= t < 4 implies #[trigger] bytes[16 + 4 * i + t] == byte_of(ids[i], t) by {
            assert(bytes[16 + 4 * i + t] == all[4 * i + t]);
            assert((4 * i + t) / 4 == i && (4 * i + t) % 4 == t);
        }
        assert(bytes[16 + 4 * i + 0] == byte_of(ids[i], 0));
        assert(bytes[16 + 4 * i + 1] == byte_of(ids[i], 1));
        assert(bytes[16 + 4 * i + 2] == byte_of(ids[i], 2));
        assert(bytes[16 + 4 * i + 3] == byte_of(ids[i], 3));
        lemma_word_from_bytes(ids[i]);
    }
    assert(record_ids(bytes) =~= ids);
    assert(bytes.skip(16 + 4 * n as int) =~= packed);
    bitpack::law_unpack_of_pack(codes, bits as nat);
    assert(codes.len() * bits >= codes.len()) by (nonlinear_arith)
        requires
            bits >= 1,
    ;
}

/// A document that was put is read back as its nearest levels: where its bytes were
/// appended to a segment, whatever followed them, it decodes at its location, and each
/// of its numbers comes back as the sum of its row's centroid and the first of the
/// levels that were nearest to what was left of it.
pub proof fn law_put_documents_decode_to_the_nearest_levels<
    G: Fn(Score, Score, Score) -> Score,
    A: Fn(Score, Score) -> Score,
>(
    gap: G,
    add: A,
    vectors: Seq<Seq<Score>>,
    ids: Seq<u32>,
    centroids: Seq<Seq<Score>>,
    codebook: Seq<Score>,
    bits: u8,
    segment: Seq<u8>,
    location: ObjectLocation,
    more: Seq<u8>,
    row: int,
    column: int,
)
    requires
        put_error(vectors, ids, centroids, codebook.len(), bits) is None,
        vectors.len() * row_length(vectors) * bits + 7 <= usize::MAX,
        0 <= row < vectors.len(),
        0 <= column < row_length(vectors),
        ({
            let dimension = row_length(vectors);
            let codes = residual_codes(gap, vectors, ids, centroids, codebook, dimension);
            let bytes = plaid_record(dimension as u32, bits, ids, codes);
            &&& location.offset == segment.len()
            &&& location.length == bytes.len()
            &&& segment.len() + bytes.len() + more.len() <= usize::MAX
        }),
    ensures
        ({
            let dimension = row_length(vectors);
            let codes = residual_codes(gap, vectors, ids, centroids, codebook, dimension);
            let mapped = segment + plaid_record(dimension as u32, bits, ids, codes) + more;
            let bytes = record(mapped, location);
            let values = decoded(add, bytes, centroids, codebook);
            let center = centroids[ids[row] as int][column];
            let level = residual_code(gap, vectors[row][column], center, codebook);
            &&& record_error(mapped.len(), location) is None
            &&& decode_error(bytes, centroids, codebook.len()) is None
            &&& le32_at(bytes, 4) == dimension
            &&& values.len() == vectors.len() * dimension
            &&& score::is_first_least(gaps(gap, vectors[row][column], center, codebook), level)
            &&& values[row * dimension + column] == arith::binary(add, center, codebook[level])
        }),
{
    let dimension = row_length(vectors);
    let codes = residual_codes(gap, vectors, ids, centroids, codebook, dimension);
    let written = plaid_record(dimension as u32, bits, ids, codes);
    let mapped = segment + written + more;
    assert(record(mapped, location) =~= written);
    assert(0 < pow2(bits as nat) <= 256) by {
        vstd::arithmetic::power2::lemma2_to64();
        vstd::arithmetic::power2::lemma_pow2_pos(bits as nat);
        if bits < 8 {
            vstd::arithmetic::power2::lemma_pow2_strictly_increases(bits as nat, 8);
        }
    }
    assert forall|k: int| 0 <= k < codes.len() implies (#[trigger] codes[k] as nat) < pow2(bits as nat) by {
        let value = vectors[k / dimension as int][k % dimension as int];
        let center = centroids[ids[k / dimension as int] as int][k % dimension as int];
        let at = lemma_first_least_exists(gaps(gap, value, center, codebook));
        assert(score::is_first_least(gaps(gap, value, center, codebook), residual_code(gap, value, center, codebook)));
    }
    law_decode_of_put(dimension as u32, bits, ids, codes, centroids);
    let k = row * dimension + column;
    lemma_row_and_column(row, column, dimension as int);
    assert(0 <= k < vectors.len() * dimension) by (nonlinear_arith)
        requires
            k == row * dimension + column,
            0 <= row < vectors.len(),
            0 <= column < dimension,
    ;
    let center = centroids[ids[row] as int][column];
    let at = lemma_first_least_exists(gaps(gap, vectors[row][column], center, codebook));
    let level = residual_code(gap, vectors[row][column], center, codebook);
    assert(score::is_first_least(gaps(gap, vectors[row][column], center, codebook), level));
    assert(codes[k] == level as u8);
    assert(record_codes(written)[k] == codes[k]);
}

} // verus!
