//! What the storage layer reports of malformed records and inputs.

use vstd::prelude::*;

verus! {

/// The class of a storage error.
#[derive(Clone, Copy, Debug, PartialEq, Eq, Structural)]
pub enum ErrorKind {
    InvalidData,
    InvalidInput,
    UnexpectedEof,
}

/// Why a record, a segment or an input was refused.
#[derive(Clone, Copy, Debug, PartialEq, Eq, Structural)]
pub enum StorageError {
    OffsetOverflow,
    LengthOverflow,
    RecordRangeOverflow,
    OutsideSegment,
    ChecksumMismatch,
    MissingChecksum,
    FdeOffsetOverflow,
    FdeLength,
    FdeUnaligned,
    EmptyFdeSegment,
    EmptyVectorSegment,
    ShorterThanCommitted,
    InputShape,
    CodebookBits,
    TruncatedObject,
    CountOverflow,
    DimensionsOverflow,
    Header,
    UnknownCentroid,
    ResidualCountOverflow,
    TruncatedResiduals,
    CodebookSize,
}

impl StorageError {
    /// The class of an error.
    pub open spec fn kind_of(self) -> ErrorKind {
        match self {
            StorageError::InputShape | StorageError::CodebookBits => ErrorKind::InvalidInput,
            StorageError::EmptyFdeSegment | StorageError::EmptyVectorSegment => ErrorKind::UnexpectedEof,
            _ => ErrorKind::InvalidData,
        }
    }

    /// The text of an error.
    pub open spec fn text(self) -> Seq<char> {
        match self {
            StorageError::OffsetOverflow => "offset overflow"@,
            StorageError::LengthOverflow => "length overflow"@,
            StorageError::RecordRangeOverflow => "record range overflow"@,
            StorageError::OutsideSegment => "record outside segment"@,
            StorageError::ChecksumMismatch => "record checksum mismatch"@,
            StorageError::MissingChecksum => "missing record checksum"@,
            StorageError::FdeOffsetOverflow => "FDE offset overflow"@,
            StorageError::FdeLength => "invalid FDE length"@,
            StorageError::FdeUnaligned => "unaligned FDE"@,
            StorageError::EmptyFdeSegment => "empty FDE segment"@,
            StorageError::EmptyVectorSegment => "empty vector segment"@,
            StorageError::ShorterThanCommitted => "segment shorter than committed boundary"@,
            StorageError::InputShape => "invalid PLAID input shape"@,
            StorageError::CodebookBits => "residual codebook size does not match bits"@,
            StorageError::TruncatedObject => "truncated PLAID object"@,
            StorageError::CountOverflow => "PLAID count overflow"@,
            StorageError::DimensionsOverflow => "PLAID dimensions overflow"@,
            StorageError::Header => "invalid PLAID header"@,
            StorageError::UnknownCentroid => "unknown centroid or mismatched dimension"@,
            StorageError::ResidualCountOverflow => "residual count overflow"@,
            StorageError::TruncatedResiduals => "truncated residuals"@,
            StorageError::CodebookSize => "residual codebook size mismatch"@,
        }
    }

    /// The class of the error.
    pub fn kind(&self) -> (r: ErrorKind)
        ensures
            r == self.kind_of(),
    {
        match self {
            StorageError::InputShape | StorageError::CodebookBits => ErrorKind::InvalidInput,
            StorageError::EmptyFdeSegment | StorageError::EmptyVectorSegment => ErrorKind::UnexpectedEof,
            _ => ErrorKind::InvalidData,
        }
    }

    /// The text of the error.
    pub fn message(&self) -> (r: &'static str)
        ensures
            r@ == self.text(),
    {
        match self {
            StorageError::OffsetOverflow => "offset overflow",
            StorageError::LengthOverflow => "length overflow",
            StorageError::RecordRangeOverflow => "record range overflow",
            StorageError::OutsideSegment => "record outside segment",
            StorageError::ChecksumMismatch => "record checksum mismatch",
            StorageError::MissingChecksum => "missing record checksum",
            StorageError::FdeOffsetOverflow => "FDE offset overflow",
            StorageError::FdeLength => "invalid FDE length",
            StorageError::FdeUnaligned => "unaligned FDE",
            StorageError::EmptyFdeSegment => "empty FDE segment",
            StorageError::EmptyVectorSegment => "empty vector segment",
            StorageError::ShorterThanCommitted => "segment shorter than committed boundary",
            StorageError::InputShape => "invalid PLAID input shape",
            StorageError::CodebookBits => "residual codebook size does not match bits",
            StorageError::TruncatedObject => "truncated PLAID object",
            StorageError::CountOverflow => "PLAID count overflow",
            StorageError::DimensionsOverflow => "PLAID dimensions overflow",
            StorageError::Header => "invalid PLAID header",
            StorageError::UnknownCentroid => "unknown centroid or mismatched dimension",
            StorageError::ResidualCountOverflow => "residual count overflow",
            StorageError::TruncatedResiduals => "truncated residuals",
            StorageError::CodebookSize => "residual codebook size mismatch",
        }
    }
}

} // verus!
