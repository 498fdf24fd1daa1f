//! Blobs: the content of one file, without its name.

use vstd::prelude::*;
use vstd::slice::slice_to_vec;
use crate::codec::{encode_object, encoded_object, header_bytes, object_header, ObjectKind};
use crate::digest::{sha1_of, GitHash};

verus! {

/// A blob: content, the length it declares, and its digest.
#[derive(Debug, PartialEq, Eq)]
pub struct Blob {
    pub hash: GitHash,
    pub length: usize,
    pub contents: Vec<u8>,
}

impl Blob {
    /// Whether the blob declares the length of its content and carries the
    /// digest of its own encoding.
    pub open spec fn wf(&self) -> bool {
        &&& self.length == self.contents@.len()
        &&& self.hash@ == sha1_of(encoded_object(ObjectKind::Blob, self.contents@))
    }

    /// A blob of the given parts, as they are.
    pub fn new(hash: GitHash, length: usize, contents: Vec<u8>) -> (res: Self)
        ensures
            res.hash == hash,
            res.length == length,
            res.contents == contents,
    {
        Self { hash, length, contents }
    }

    /// The blob that holds `contents`: its digest is that of its encoding.
    pub fn from_contents(contents: &[u8]) -> (res: Self)
        ensures
            res.contents@ == contents@,
            res.wf(),
    {
        let store = encode_object(ObjectKind::Blob, contents);
        let hash = GitHash::compute(store.as_slice());
        Self { hash, length: contents.len(), contents: slice_to_vec(contents) }
    }

    /// The header of the blob's encoding, with the length it declares.
    pub fn header(&self) -> (res: Vec<u8>)
        ensures
            res@ == object_header(ObjectKind::Blob, self.length as nat),
    {
        header_bytes(ObjectKind::Blob, self.length)
    }

    /// The header, then the content. For a well-formed blob this is its
    /// canonical encoding.
    pub fn as_bytes(&self) -> (res: Vec<u8>)
        ensures
            res@ == object_header(ObjectKind::Blob, self.length as nat) + self.contents@,
            self.wf() ==> res@ == encoded_object(ObjectKind::Blob, self.contents@),
    {
        let mut out = self.header();
        out.extend_from_slice(self.contents.as_slice());
        assert(out@ =~= object_header(ObjectKind::Blob, self.length as nat) + self.contents@);
        out
    }
}

} // verus!
