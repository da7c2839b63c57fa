//! The errors of the library.
use vstd::prelude::*;

verus! {

/// Everything that can go wrong while reading or writing git data.
#[derive(Debug)]
pub enum GitError {
    /// A pkt-line had fewer than four bytes left for its length header.
    PktHeaderTooShort,
    /// A pkt-line length header was not a hexadecimal number.
    PktBadLength,
    /// A pkt-line announced the reserved length 3.
    PktInvalidLength,
    /// A pkt-line announced more bytes than were left.
    PktTruncated,
    /// The upload-pack response did not start with a `NAK` line.
    ExpectedNak,
    /// Text that had to be UTF-8 was not.
    InvalidUtf8,
    /// A loose object had no NUL byte after its header.
    MissingNul,
    /// A loose object header had no space between type and size.
    MalformedHeader,
    /// An object type other than blob, tree or commit.
    UnsupportedObjectType(String),
    /// A person line had no `<` before the email.
    MissingLt,
    /// A person line had no `>` after the email.
    MissingGt,
    /// A person line had no timestamp.
    MissingTimestamp,
    /// A person line had no timezone.
    MissingTimezone,
    /// A commit had no `tree` line.
    MissingTree,
    /// A commit had no `author` line.
    MissingAuthor,
    /// A commit had no `committer` line.
    MissingCommitter,
    /// A pack shorter than a header and a trailer (the length is given).
    PackTooShort(usize),
    /// A pack whose first four bytes are not `PACK` (they are given).
    BadPackMagic(Vec<u8>),
    /// A pack version other than 2.
    UnsupportedPackVersion(u32),
    /// The pack trailer is not the SHA-1 of the rest of the pack.
    PackChecksumMismatch,
    /// A ref-delta whose base object was not seen earlier in the pack.
    DeltaBaseMissing(String),
    /// An offset delta, which is never requested.
    OfsDeltaUnsupported,
    /// A pack entry type that does not exist.
    UnsupportedPackEntryType(u8),
    /// A zlib stream that could not be inflated.
    Inflate,
    /// A delta instruction byte of zero.
    InvalidDeltaOpcode,
    /// A delta whose output length differs from its announced target size.
    DeltaSizeMismatch { expected: usize, got: usize },
    /// A pack whose entries run past its end.
    PackEntryOutOfBounds,
    /// A delta whose instructions reach outside its base or itself.
    DeltaOutOfBounds,
    /// Checking out something that is not a commit.
    NotACommit,
    /// A tree was expected.
    ExpectedTree,
    /// A blob was expected.
    ExpectedBlob,
    /// An HTTP status other than 200.
    BadStatus(u16),
    /// A content type other than the one of a ref advertisement (its bytes given).
    BadContentType(Vec<u8>),
}

} // verus!
