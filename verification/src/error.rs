use vstd::prelude::*;

verus! {

/// The failure taxonomy of the store and the index.
///
/// - `NotFound`: a referenced fingerprint has no corresponding object file.
/// - `Malformed`: object bytes do not conform to the expected frame layout
///   (missing separator, unrecognized type token).
/// - `ChecksumMismatch`: the index's trailing digest does not match the
///   recomputed digest of the preceding bytes, or the buffer is too short to
///   hold a checksum at all.
/// - `Truncated`: fewer bytes are available than a fixed-width field or a
///   declared variable-length field requires.
/// - `Unimplemented`: a recognized object type whose content rendering is not
///   supported; the data is valid, just unhandled.
#[derive(Clone, Copy, Debug, PartialEq, Eq, Structural)]
pub enum StoreError {
    NotFound,
    Malformed,
    ChecksumMismatch,
    Truncated,
    Unimplemented,
}

impl StoreError {
    /// A short description of the error, for display at the program's edge.
    pub fn message(&self) -> (r: &'static str)
        ensures
            r@ == match self {
                StoreError::NotFound => "object not found"@,
                StoreError::Malformed => "malformed data"@,
                StoreError::ChecksumMismatch => "index checksum mismatch"@,
                StoreError::Truncated => "truncated data"@,
                StoreError::Unimplemented => "unimplemented object type"@,
            },
    {
        match self {
            StoreError::NotFound => "object not found",
            StoreError::Malformed => "malformed data",
            StoreError::ChecksumMismatch => "index checksum mismatch",
            StoreError::Truncated => "truncated data",
            StoreError::Unimplemented => "unimplemented object type",
        }
    }
}

} // verus!
