//! The frame of a stored graph: a magic number and a version in front, a magic
//! number and a checksum behind.

use vstd::prelude::*;
use crate::hnsw::types::DBError;

verus! {

/// The version that is written.
pub const HNSW_SNAPSHOT_VERSION: u32 = 2;

/// What a stored graph starts with.
pub open spec fn magic() -> Seq<u8> {
    seq![86u8, 68u8, 66u8, 72u8]
}

/// What stands before the checksum.
pub open spec fn footer() -> Seq<u8> {
    seq![86u8, 68u8, 66u8, 70u8]
}

/// The bytes of a number, the lowest first.
pub open spec fn le_bytes(value: u32) -> Seq<u8> {
    seq![
        (value % 256) as u8,
        (value / 256 % 256) as u8,
        (value / 65536 % 256) as u8,
        (value / 16777216) as u8,
    ]
}

/// The number of four bytes, the lowest first.
pub open spec fn le_value(bytes: Seq<u8>) -> u32 {
    (bytes[0] + 256 * bytes[1] + 65536 * bytes[2] + 16777216 * bytes[3]) as u32
}

/// The two sums of the Adler-32 checksum: of the bytes, and of the sums before.
pub open spec fn adler_sums(bytes: Seq<u8>) -> (int, int)
    decreases bytes.len(),
{
    if bytes.len() == 0 {
        (1, 0)
    } else {
        let before = adler_sums(bytes.drop_last());
        let a = (before.0 + bytes.last()) % 65521;
        (a, (before.1 + a) % 65521)
    }
}

/// The Adler-32 checksum.
pub open spec fn adler(bytes: Seq<u8>) -> u32 {
    (adler_sums(bytes).1 * 65536 + adler_sums(bytes).0) as u32
}

/// A body in its frame.
pub open spec fn framed(body: Seq<u8>) -> Seq<u8> {
    let payload = magic() + le_bytes(HNSW_SNAPSHOT_VERSION) + body;
    payload + footer() + le_bytes(adler(payload))
}

/// The body of a stored graph. A body without a version is of one of the forms
/// that had none.
#[derive(Debug)]
pub enum Body {
    Versioned(Vec<u8>),
    Unversioned(Vec<u8>),
}

/// Whether the bytes end in a checksum.
pub open spec fn has_footer(bytes: Seq<u8>) -> bool {
    bytes.len() >= 8 && bytes.subrange(bytes.len() - 8, bytes.len() - 4) == footer()
}

/// The bytes in front of the checksum, all of them where there is none.
pub open spec fn payload_of(bytes: Seq<u8>) -> Seq<u8> {
    if has_footer(bytes) {
        bytes.take(bytes.len() - 8)
    } else {
        bytes
    }
}

/// Whether the checksum, if there is one, is that of the bytes in front of it.
pub open spec fn intact(bytes: Seq<u8>) -> bool {
    has_footer(bytes) ==> le_value(bytes.skip(bytes.len() - 4)) == adler(payload_of(bytes))
}

/// Whether a payload has a version.
pub open spec fn has_version(payload: Seq<u8>) -> bool {
    payload.len() >= 8 && payload.take(4) == magic()
}

/// The version of a payload.
pub open spec fn version_of(payload: Seq<u8>) -> u32 {
    le_value(payload.subrange(4, 8))
}

proof fn lemma_le(value: u32)
    ensures
        le_value(le_bytes(value)) == value,
{
    assert(value as int == value % 256 + 256 * (value / 256 % 256) + 65536 * (value / 65536 % 256) + 16777216 * (value
        / 16777216)) by (nonlinear_arith);
}

/// What was framed is unframed again: the frame is intact, has the current
/// version, and holds the body.
pub proof fn law_unframing_gives_back_the_body(body: Seq<u8>)
    ensures
        ({
            let bytes = framed(body);
            let payload = payload_of(bytes);
            &&& intact(bytes)
            &&& has_footer(bytes)
            &&& has_version(payload)
            &&& version_of(payload) == HNSW_SNAPSHOT_VERSION
            &&& payload.skip(8) == body
        }),
{
    let payload = magic() + le_bytes(HNSW_SNAPSHOT_VERSION) + body;
    let bytes = framed(body);
    assert(bytes.subrange(bytes.len() - 8, bytes.len() - 4) =~= footer());
    assert(bytes.take(bytes.len() - 8) =~= payload);
    assert(bytes.skip(bytes.len() - 4) =~= le_bytes(adler(payload)));
    lemma_le(adler(payload));
    assert(payload.take(4) =~= magic());
    assert(payload.subrange(4, 8) =~= le_bytes(HNSW_SNAPSHOT_VERSION));
    lemma_le(HNSW_SNAPSHOT_VERSION);
    assert(payload.skip(8) =~= body);
}

/// The Adler-32 checksum.
pub fn adler32(bytes: &[u8]) -> (r: u32)
    ensures
        r == adler(bytes@),
{
    let mut a: u32 = 1;
    let mut b: u32 = 0;
    let mut i: usize = 0;
    while i < bytes.len()
        invariant
            i <= bytes@.len(),
            a == adler_sums(bytes@.take(i as int)).0,
            b == adler_sums(bytes@.take(i as int)).1,
            a < 65521,
            b < 65521,
        decreases bytes@.len() - i,
    {
        assert(bytes@.take(i + 1).drop_last() =~= bytes@.take(i as int));
        assert(bytes@.take(i + 1).last() == bytes@[i as int]);
        a = (a + bytes[i] as u32) % 65521;
        b = (b + a) % 65521;
        i += 1;
    }
    assert(bytes@.take(i as int) =~= bytes@);
    b * 65536 + a
}

/// Appends the bytes of a number, the lowest first.
fn push_le(out: &mut Vec<u8>, value: u32)
    ensures
        final(out)@ == old(out)@ + le_bytes(value),
{
    out.push((value % 256) as u8);
    out.push((value / 256 % 256) as u8);
    out.push((value / 65536 % 256) as u8);
    out.push((value / 16777216) as u8);
    assert(out@ =~= old(out)@ + le_bytes(value));
}

/// The number of the four bytes at a position, the lowest first.
fn le_at(bytes: &[u8], at: usize) -> (r: u32)
    requires
        at + 4 <= bytes@.len(),
    ensures
        r == le_value(bytes@.subrange(at as int, at + 4)),
{
    let value: u64 = bytes[at] as u64 + 256 * bytes[at + 1] as u64 + 65536 * bytes[at + 2] as u64 + 16777216
        * bytes[at + 3] as u64;
    value as u32
}

/// Puts a body in its frame.
pub fn frame(body: &[u8]) -> (r: Vec<u8>)
    ensures
        r@ == framed(body@),
{
    let mut out: Vec<u8> = Vec::new();
    out.push(86);
    out.push(68);
    out.push(66);
    out.push(72);
    assert(out@ =~= magic());
    push_le(&mut out, HNSW_SNAPSHOT_VERSION);
    out.extend_from_slice(body);
    assert(out@ =~= magic() + le_bytes(HNSW_SNAPSHOT_VERSION) + body@);
    let checksum: u32 = adler32(out.as_slice());
    let ghost payload = out@;
    out.push(86);
    out.push(68);
    out.push(66);
    out.push(70);
    assert(out@ =~= payload + footer());
    push_le(&mut out, checksum);
    out
}

/// The bytes of a slice from one position to another.
fn part(bytes: &[u8], from: usize, to: usize) -> (r: Vec<u8>)
    requires
        from <= to <= bytes@.len(),
    ensures
        r@ == bytes@.subrange(from as int, to as int),
{
    let mut out: Vec<u8> = Vec::with_capacity(to - from);
    let mut i: usize = from;
    while i < to
        invariant
            from <= i <= to <= bytes@.len(),
            out@ == bytes@.subrange(from as int, i as int),
        decreases to - i,
    {
        out.push(bytes[i]);
        assert(out@ =~= bytes@.subrange(from as int, i + 1));
        i += 1;
    }
    out
}

/// Takes a body out of its frame: refuses bytes with a wrong checksum or of an
/// unknown version.
pub fn unframe(bytes: &[u8]) -> (r: Result<Body, DBError>)
    ensures
        ({
            let payload = payload_of(bytes@);
            &&& !intact(bytes@) ==> r == Err::<Body, DBError>(DBError::SnapshotChecksum)
            &&& intact(bytes@) && has_version(payload) && version_of(payload) == HNSW_SNAPSHOT_VERSION ==> r is Ok
                && r->Ok_0 is Versioned && r->Ok_0->Versioned_0@ == payload.skip(8)
            &&& intact(bytes@) && has_version(payload) && version_of(payload) != HNSW_SNAPSHOT_VERSION ==> r == Err::<
                Body,
                DBError,
            >(DBError::SnapshotVersion(version_of(payload)))
            &&& intact(bytes@) && !has_version(payload) ==> r is Ok && r->Ok_0 is Unversioned
                && r->Ok_0->Unversioned_0@ == payload
        }),
{
    let n: usize = bytes.len();
    let marked: bool = n >= 8 && bytes[n - 8] == 86 && bytes[n - 7] == 68 && bytes[n - 6] == 66 && bytes[n - 5] == 70;
    proof {
        if n >= 8 {
            let tail = bytes@.subrange(n - 8, n - 4);
            if marked {
                assert(tail =~= footer());
            } else {
                assert(tail[0] == bytes@[n - 8] && tail[1] == bytes@[n - 7] && tail[2] == bytes@[n - 6] && tail[3]
                    == bytes@[n - 5]);
                assert(footer()[0] == 86 && footer()[1] == 68 && footer()[2] == 66 && footer()[3] == 70);
            }
        }
    }
    let end: usize = if marked {
        n - 8
    } else {
        n
    };
    let payload: Vec<u8> = part(bytes, 0, end);
    assert(payload@ =~= payload_of(bytes@));
    if marked {
        assert(bytes@.skip(n - 4) =~= bytes@.subrange(n - 4, n - 4 + 4));
        if le_at(bytes, n - 4) != adler32(payload.as_slice()) {
            return Err(DBError::SnapshotChecksum);
        }
    }
    if end >= 8 && payload[0] == 86 && payload[1] == 68 && payload[2] == 66 && payload[3] == 72 {
        assert(payload@.take(4) =~= magic());
        let version: u32 = le_at(payload.as_slice(), 4);
        if version != HNSW_SNAPSHOT_VERSION {
            return Err(DBError::SnapshotVersion(version));
        }
        let body: Vec<u8> = part(payload.as_slice(), 8, end);
        assert(body@ =~= payload@.skip(8));
        return Ok(Body::Versioned(body));
    }
    proof {
        if end >= 8 {
            let head = payload@.take(4);
            assert(head[0] == payload@[0] && head[1] == payload@[1] && head[2] == payload@[2] && head[3]
                == payload@[3]);
            assert(magic()[0] == 86 && magic()[1] == 68 && magic()[2] == 66 && magic()[3] == 72);
        }
    }
    Ok(Body::Unversioned(payload))
}

} // verus!
