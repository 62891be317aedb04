//! Error conditions of the object store and its codecs.

use vstd::prelude::*;

verus! {

/// Why a store or codec operation failed.
#[derive(Clone, Copy, Debug, PartialEq, Eq, Structural)]
pub enum StoreError {
    /// No object exists under the requested digest.
    NotFound,
    /// The object header is malformed: no NUL terminator within the scan
    /// bound, an unknown kind name, a bad size field, or a failed
    /// decompression.
    CorruptHeader,
    /// The declared payload size and the bytes actually present disagree.
    SizeMismatch { expected: u64, actual: u64 },
    /// The object kind is not handled by the requested operation.
    UnsupportedKind,
    /// A snapshot of the working tree produced no content at the root.
    EmptySnapshot,
}

} // verus!
