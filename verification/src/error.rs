use vstd::prelude::*;

verus! {

/// Failure kinds of the codec. Errors are flat and non-retryable: any error
/// aborts the enclosing encode or decode call, and no partial value is
/// surfaced as success.
#[derive(Clone, Copy, Debug, PartialEq, Eq, Structural)]
pub enum Error {
    /// The reader was exhausted before a read completed.
    OutOfData,
    /// A scalar on the wire is malformed: a boolean byte other than 0 or 1,
    /// a code point that is no Unicode scalar, or a variant index with no
    /// matching variant.
    InvalidScalar,
    /// A text payload is not valid UTF-8.
    InvalidText,
    /// The encoder was given a sequence or mapping of unknown element count.
    UnknownLength,
    /// A self-describing decode was attempted; the expected shape must always
    /// be supplied by the caller.
    Unsupported,
}

} // verus!
