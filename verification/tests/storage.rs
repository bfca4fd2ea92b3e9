use annex::bitpack::{pack, unpack};
use annex::error::{ErrorKind, StorageError};
use annex::storage::{
    record_bytes, verify_record, CompressedVectorStore, FixedVectorStore, ObjectLocation,
};

/// Slow bit-by-bit unpacking, to hold the library's against.
fn unpack_reference(bytes: &[u8], bits: u8, count: usize) -> Vec<u8> {
    let mask = (1_u64 << bits) - 1;
    let mut out = Vec::with_capacity(count);
    let (mut acc, mut used, mut input) = (0_u64, 0_u8, bytes.iter());
    while out.len() < count {
        while used < bits {
            acc |= (*input.next().unwrap() as u64) << used;
            used += 8;
        }
        out.push((acc & mask) as u8);
        acc >>= bits;
        used -= bits;
    }
    out
}

fn deterministic_bytes(n: usize) -> Vec<u8> {
    let mut s: u32 = 0xC0DEBEEF;
    (0..n)
        .map(|_| {
            s = s.wrapping_mul(1664525).wrapping_add(1013904223);
            (s >> 16) as u8
        })
        .collect()
}

fn bits(values: &[f32]) -> Vec<u32> {
    values.iter().map(|v| v.to_bits()).collect()
}

fn add(a: u32, b: u32) -> u32 {
    (f32::from_bits(a) + f32::from_bits(b)).to_bits()
}

fn gap(value: u32, center: u32, level: u32) -> u32 {
    ((f32::from_bits(value) - f32::from_bits(center)) - f32::from_bits(level)).abs().to_bits()
}

#[test]
fn unpack_bits2_fast_path_matches_reference_for_aligned_counts() {
    let raw = deterministic_bytes(8000);
    for &count in &[4usize, 16, 128, 512, 25600] {
        let expected = unpack_reference(&raw, 2, count);
        let actual = unpack(&raw[..(count * 2).div_ceil(8)], 2, count).unwrap();
        assert_eq!(actual, expected, "count={count}");
    }
}

#[test]
fn unpack_bits2_fast_path_matches_reference_for_ragged_counts() {
    let raw = deterministic_bytes(8000);
    for &count in &[1usize, 2, 3, 5, 6, 7, 9, 17, 25599] {
        let expected = unpack_reference(&raw, 2, count);
        let actual = unpack(&raw[..(count * 2).div_ceil(8)], 2, count).unwrap();
        assert_eq!(actual, expected, "count={count}");
    }
}

#[test]
fn unpack_other_bits_still_uses_general_path() {
    let raw = deterministic_bytes(2000);
    for bits in [1u8, 3, 4, 5, 8] {
        let count = 32;
        let expected = unpack_reference(&raw, bits, count);
        let actual = unpack(&raw[..(count * bits as usize).div_ceil(8)], bits, count).unwrap();
        assert_eq!(actual, expected, "bits={bits}");
    }
}

#[test]
fn corrupt_headers_and_ranges_return_errors_without_panicking() {
    let centers = vec![bits(&[0.; 3])];
    let residuals = bits(&[0.; 4]);
    for (count, dimension) in [(u32::MAX, 3), (1, u32::MAX), (0, 3), (1, 0), (1, 4)] {
        let mut bytes = vec![0u8; 21];
        bytes[..4].copy_from_slice(&count.to_le_bytes());
        bytes[4..8].copy_from_slice(&dimension.to_le_bytes());
        bytes[8] = 2;
        bytes[12..16].copy_from_slice(&1f32.to_le_bytes());
        let location = ObjectLocation { offset: 0, length: bytes.len() as u64, checksum: None };
        assert!(CompressedVectorStore::decode(&bytes, location, &centers, &residuals, &add).is_err());
    }
    let location = ObjectLocation { offset: u64::MAX, length: 2, checksum: None };
    assert!(FixedVectorStore::get(&[0; 16], location, 1).is_err());
    assert!(CompressedVectorStore::decode(&[0; 16], location, &centers, &residuals, &add).is_err());
    let location = ObjectLocation { offset: 0, length: 4, checksum: None };
    assert!(FixedVectorStore::get(&[0; 16], location, usize::MAX).is_err());
}

#[test]
fn packed_codes_fill_bytes_from_the_least_significant_bit() {
    assert_eq!(pack(&[1, 2, 3, 0, 1], 2), vec![0b0011_1001, 0b01]);
    assert_eq!(pack(&[5, 6, 7], 3), vec![0b1111_0101, 0b1]);
    assert_eq!(pack(&[0xab, 0xcd], 8), vec![0xab, 0xcd]);
    assert!(pack(&[], 4).is_empty());
}

#[test]
fn unpacking_gives_back_what_was_packed() {
    for bits in 1u8..=8 {
        let codes: Vec<u8> = deterministic_bytes(37)
            .into_iter()
            .map(|b| (b as u16 % (1u16 << bits)) as u8)
            .collect();
        assert_eq!(unpack(&pack(&codes, bits), bits, codes.len()).unwrap(), codes);
    }
}

#[test]
fn unpacking_refuses_other_lengths_and_overflowing_counts() {
    assert_eq!(unpack(&[0, 0], 2, 4), Err(StorageError::TruncatedResiduals));
    assert_eq!(unpack(&[], 8, usize::MAX), Err(StorageError::ResidualCountOverflow));
}

#[test]
fn compressed_documents_decode_to_the_nearest_levels() {
    let centroids = vec![bits(&[1.0, 0.0]), bits(&[0.0, 1.0])];
    let codebook = bits(&[-0.5, -0.1, 0.1, 0.5]);
    let vectors = vec![bits(&[0.6, 0.05]), bits(&[0.1, 0.4])];
    let (location, bytes) =
        CompressedVectorStore::put(10, &vectors, &[0, 1], &centroids, &codebook, 2, &gap).unwrap();
    assert_eq!((location.offset, location.length), (10, bytes.len() as u64));
    assert_eq!(&bytes[..24], &[2, 0, 0, 0, 2, 0, 0, 0, 2, 0, 0, 0, 0, 0, 0x80, 0x3f, 0, 0, 0, 0, 1, 0, 0, 0]);
    assert_eq!(location.checksum.unwrap(), *blake3::hash(&bytes).as_bytes());
    let mut segment = vec![9u8; 10];
    segment.extend_from_slice(&bytes);
    verify_record(&segment, location, true).unwrap();
    let decoded = CompressedVectorStore::decode(&segment, location, &centroids, &codebook, &add).unwrap();
    assert_eq!(decoded.dimension, 2);
    assert_eq!(decoded.values, bits(&[1.0 - 0.5, 0.0 + 0.1, 0.0 + 0.1, 1.0 - 0.5]));
}

#[test]
fn compression_refuses_ragged_documents_and_wrong_codebooks() {
    let centroids = vec![bits(&[1.0, 0.0])];
    let codebook = bits(&[0.0, 0.5]);
    let put = |vectors: &[Vec<u32>], ids: &[u32], bits_per_code: u8| {
        CompressedVectorStore::put(0, vectors, ids, &centroids, &codebook, bits_per_code, &gap).map(|_| ())
    };
    let row = bits(&[1.0, 0.0]);
    assert_eq!(put(&[], &[], 1), Err(StorageError::InputShape));
    assert_eq!(put(&[row.clone(), bits(&[1.0])], &[0, 0], 1), Err(StorageError::InputShape));
    assert_eq!(put(&[row.clone()], &[1], 1), Err(StorageError::InputShape));
    assert_eq!(put(&[row.clone()], &[0], 9), Err(StorageError::InputShape));
    assert_eq!(put(&[row.clone()], &[0], 2), Err(StorageError::CodebookBits));
    assert_eq!(put(&[row], &[0], 1), Ok(()));
    assert_eq!(StorageError::CodebookBits.kind(), ErrorKind::InvalidInput);
    assert_eq!(StorageError::CodebookBits.message(), "residual codebook size does not match bits");
}

#[test]
fn every_malformed_record_is_told_apart() {
    let centroids = vec![bits(&[1.0, 0.0])];
    let codebook = bits(&[0.0, 0.5]);
    let (location, good) = CompressedVectorStore::put(
        0,
        &[bits(&[1.0, 0.4])],
        &[0],
        &centroids,
        &codebook,
        1,
        &gap,
    )
    .unwrap();
    let decode = |bytes: &[u8], codebook: &[u32]| {
        let location = ObjectLocation { length: bytes.len() as u64, ..location };
        CompressedVectorStore::decode(bytes, location, &centroids, codebook, &add).err()
    };
    assert_eq!(decode(&good, &codebook), None);
    assert_eq!(decode(&good[..15], &codebook), Some(StorageError::TruncatedObject));
    assert_eq!(decode(&good[..20], &codebook), Some(StorageError::TruncatedResiduals));
    assert_eq!(decode(&good, &bits(&[0.0])), Some(StorageError::CodebookSize));
    for at in [8usize, 9, 11, 12, 15] {
        let mut bad = good.clone();
        bad[at] = 0xff;
        assert_eq!(decode(&bad, &codebook), Some(StorageError::Header), "at={at}");
    }
    let mut bad = good.clone();
    bad[16] = 1;
    assert_eq!(decode(&bad, &codebook), Some(StorageError::UnknownCentroid));
    let mut scratch = vec![7u32];
    assert!(CompressedVectorStore::decode_into(&bad, location, &centroids, &codebook, &mut scratch, &add).is_err());
    assert_eq!(scratch, vec![7]);
}

#[test]
fn record_ranges_are_checked_before_they_are_read() {
    let segment = [1u8, 2, 3, 4];
    let at = |offset, length| ObjectLocation { offset, length, checksum: None };
    assert_eq!(record_bytes(&segment, at(1, 2)), Ok(&segment[1..3]));
    assert_eq!(record_bytes(&segment, at(0, 5)), Err(StorageError::OutsideSegment));
    assert_eq!(record_bytes(&segment, at(u64::MAX, 1)), Err(StorageError::RecordRangeOverflow));
}

#[test]
fn records_are_held_to_their_digests() {
    let segment = [1u8, 2, 3, 4];
    let good = *blake3::hash(&segment).as_bytes();
    let at = |checksum| ObjectLocation { offset: 0, length: 4, checksum };
    assert_eq!(verify_record(&segment, at(Some(good)), true), Ok(()));
    assert_eq!(verify_record(&segment, at(Some([0; 32])), false), Err(StorageError::ChecksumMismatch));
    assert_eq!(verify_record(&segment, at(None), true), Err(StorageError::MissingChecksum));
    assert_eq!(verify_record(&segment, at(None), false), Ok(()));
}

#[test]
fn encodings_are_padded_to_words_and_read_back() {
    let vector = bits(&[1.5, -2.25, 0.0]);
    for length in 0u64..9 {
        let (padding, bytes, location) = FixedVectorStore::put(length, &vector).unwrap();
        assert_eq!(padding, (4 - length % 4) % 4);
        assert_eq!((location.offset, location.length), (length + padding, 12));
        assert_eq!(location.checksum.unwrap(), *blake3::hash(bytes).as_bytes());
        let words: Vec<u8> = vector.iter().flat_map(|w| w.to_ne_bytes()).collect();
        assert_eq!(bytes, &words[..]);
    }
    let (_, bytes, location) = FixedVectorStore::put(0, &vector).unwrap();
    assert_eq!(FixedVectorStore::get(bytes, location, 3).unwrap(), &vector[..]);
    assert_eq!(FixedVectorStore::get(bytes, location, 2), Err(StorageError::FdeLength));
    assert_eq!(FixedVectorStore::put(u64::MAX, &vector).err(), Some(StorageError::FdeOffsetOverflow));
    let shifted = ObjectLocation { offset: 1, length: 8, checksum: None };
    assert_eq!(FixedVectorStore::get(bytes, shifted, 2), Err(StorageError::FdeUnaligned));
}

#[test]
fn segments_are_cut_back_to_what_was_committed() {
    assert_eq!(FixedVectorStore::recover(9, 8), Ok(8));
    assert_eq!(CompressedVectorStore::recover(7, 8), Err(StorageError::ShorterThanCommitted));
    assert_eq!(FixedVectorStore::map(0), Err(StorageError::EmptyFdeSegment));
    assert_eq!(CompressedVectorStore::map(0), Err(StorageError::EmptyVectorSegment));
    assert_eq!(CompressedVectorStore::map(1), Ok(()));
    assert_eq!(StorageError::EmptyFdeSegment.kind(), ErrorKind::UnexpectedEof);
}
