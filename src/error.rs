use vstd::prelude::*;

verus! {

/// What went wrong with a key.
#[derive(Debug, Clone, Copy, PartialEq, Eq)]
pub enum KeyError {
    /// The universal key is not 1, 2, 4 or 16 bytes long (its length is given).
    UniversalKeyLength(usize),
    /// The buffer's universal key is not the one the schema expects.
    UniversalKeyMismatch,
    /// The key is used twice within one record.
    Duplicate(u8),
    /// The key is reserved at the outermost depth (for the checksum trailer).
    Reserved(u8),
    /// The declared key does not fit in one byte.
    OutOfRange(i32),
}

/// Errors of the codec.
#[derive(Debug, Clone, Copy, PartialEq, Eq)]
pub enum Error {
    /// A universal key or field key problem.
    Key(KeyError),
    /// A malformed or unsupported length octet (the octet is given).
    UnsupportedLength(u8),
    /// The buffer is shorter than declared, or bytes are left over or missing.
    ContentLength,
    /// A fixed-width field's declared length is not its type's width.
    TypeLength,
    /// A string field does not hold valid UTF-8.
    ExpectedString,
    /// A character field does not hold a Unicode scalar value.
    ExpectedChar(u32),
    /// A record claims more bytes than its enclosing frame holds.
    ExpectedMapEnd,
    /// A sequence's length is not a whole number of elements.
    ExpectedSeqEnd,
    /// A field the schema requires is not in the buffer (its key is given).
    MissingField(i32),
    /// The buffer does not end with a checksum trailer.
    HasNotChecksum,
    /// The stored checksum differs from the one computed over the buffer.
    ChecksumMismatch { stored: u16, computed: u16 },
}

} // verus!
