use vstd::prelude::*;

verus! {

/// The header check that failed while opening a container.
#[derive(Debug, Clone, Copy, PartialEq, Eq, Structural)]
pub enum FormatCheck {
    /// The magic signature is not `BPX`.
    Signature,
    /// The format version is not one this library reads.
    Version,
    /// The main header checksum does not match its content.
    Checksum,
    /// The stream ends before the header, the directory or a section payload.
    Truncated,
    /// A section's stored bytes do not match the checksum in its header.
    SectionChecksum,
}

/// Failures of a stream or of a section buffer.
#[derive(Debug, Clone, Copy, PartialEq, Eq, Structural)]
pub enum IoErrorKind {
    /// A seek to a position before the start of the buffer.
    InvalidSeek,
    /// A shift that would reach past either end of the buffer.
    ShiftOutOfRange,
    /// A size or position that does not fit the machine's integers.
    Overflow,
    /// A codec refused the stored bytes.
    Codec,
}

/// Every failure of the library.
#[derive(Debug, Clone, Copy, PartialEq, Eq, Structural)]
pub enum Error {
    Format(FormatCheck),
    NotFound,
    Io(IoErrorKind),
    TypeError,
    UnsupportedValue,
    InvalidString,
    ColumnNotFound,
    /// The schema of a table that holds rows cannot change.
    TableNotEmpty,
}

} // verus!
