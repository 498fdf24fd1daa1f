//! The failures that the object database reports.

use vstd::prelude::*;

verus! {

/// Why an operation on the object database did not succeed.
#[derive(Debug, Clone, Copy, PartialEq, Eq, Structural)]
pub enum ObjectError {
    /// A digest was not written as forty hexadecimal characters.
    MalformedDigest,
    /// No object is stored under the digest.
    ObjectNotFound,
    /// The stored bytes do not decompress, or an object's payload is not
    /// what its kind demands.
    CorruptObject,
    /// The kind in an object's header is none of `blob`, `tree`, `commit`.
    UnknownObjectKind,
    /// An object's header has no terminator, no separator, or no valid length.
    MalformedHeader,
    /// An object ends before the bytes that it announces.
    TruncatedObject,
    /// The host filesystem refused an operation.
    FilesystemFailure,
}

} // verus!
