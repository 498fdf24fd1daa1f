//! Objects of any kind, and reading them back from what is stored.

use vstd::prelude::*;
use vstd::slice::slice_to_vec;
use crate::blob::Blob;
use crate::codec::{
    decode_object, decoded_object, encoded_object, lemma_decode_encode, object_header, ObjectKind,
};
use crate::commit::{
    commit_contents, commit_wf, lemma_parse_commit_payload, parsed_commit, Commit, CommitView,
};
use crate::digest::GitHash;
use crate::error::ObjectError;
use crate::tree::{
    entry_wf, lemma_parse_tree_payload, parse_entries, parsed_entries, sorted_entries,
    tree_contents, EntryView, Tree, TreeEntry,
};
use crate::zlib::{decompress, zlib_inflated};

verus! {

/// An object of the database.
#[derive(Debug, PartialEq, Eq)]
pub enum GitObject {
    Blob(Blob),
    Tree(Tree),
    Commit(Commit),
}

/// What an object holds, its digest aside.
pub enum ContentView {
    Blob(Seq<u8>),
    Tree(Seq<EntryView>),
    Commit(CommitView),
}

impl View for GitObject {
    type V = ContentView;

    open spec fn view(&self) -> ContentView {
        match self {
            GitObject::Blob(blob) => ContentView::Blob(blob.contents@),
            GitObject::Tree(tree) => ContentView::Tree(tree.entries.deep_view()),
            GitObject::Commit(commit) => ContentView::Commit(commit@),
        }
    }
}

/// What an encoded object decodes to: its framing must hold, and its
/// payload must be what its kind demands. A blob's payload is its content.
pub open spec fn parsed_object(bytes: Seq<u8>) -> Result<ContentView, ObjectError> {
    match decoded_object(bytes) {
        Err(e) => Err(e),
        Ok((kind, payload)) => match kind {
            ObjectKind::Blob => Ok(ContentView::Blob(payload)),
            ObjectKind::Tree => match parsed_entries(payload) {
                Ok(entries) => Ok(ContentView::Tree(entries)),
                Err(e) => Err(e),
            },
            ObjectKind::Commit => match parsed_commit(payload) {
                Ok(commit) => Ok(ContentView::Commit(commit)),
                Err(e) => Err(e),
            },
        },
    }
}

/// What is found at an object's path, as a value: the bytes of the file,
/// or nothing where there is no file.
pub open spec fn found_view(found: Option<&[u8]>) -> Option<Seq<u8>> {
    match found {
        Some(stored) => Some(stored@),
        None => None,
    }
}

/// The object that is stored where `found` was found: there must be a
/// file, its bytes must decompress, and what they decompress to must
/// decode.
pub open spec fn loaded_object(found: Option<Seq<u8>>) -> Result<ContentView, ObjectError> {
    match found {
        None => Err(ObjectError::ObjectNotFound),
        Some(stored) => match zlib_inflated(stored) {
            None => Err(ObjectError::CorruptObject),
            Some(bytes) => parsed_object(bytes),
        },
    }
}

impl GitObject {
    /// The object's kind.
    pub open spec fn spec_kind(&self) -> ObjectKind {
        match self {
            GitObject::Blob(_) => ObjectKind::Blob,
            GitObject::Tree(_) => ObjectKind::Tree,
            GitObject::Commit(_) => ObjectKind::Commit,
        }
    }

    /// The digest that the object carries.
    pub open spec fn spec_hash(&self) -> GitHash {
        match self {
            GitObject::Blob(blob) => blob.hash,
            GitObject::Tree(tree) => tree.hash,
            GitObject::Commit(commit) => commit.hash,
        }
    }

    /// The object's kind.
    #[verifier::when_used_as_spec(spec_kind)]
    pub fn kind(&self) -> (res: ObjectKind)
        ensures
            res == self.spec_kind(),
    {
        match self {
            GitObject::Blob(_) => ObjectKind::Blob,
            GitObject::Tree(_) => ObjectKind::Tree,
            GitObject::Commit(_) => ObjectKind::Commit,
        }
    }

    /// The digest that the object carries.
    #[verifier::when_used_as_spec(spec_hash)]
    pub fn hash(&self) -> (res: GitHash)
        ensures
            res == self.spec_hash(),
    {
        match self {
            GitObject::Blob(blob) => blob.hash,
            GitObject::Tree(tree) => tree.hash,
            GitObject::Commit(commit) => commit.hash,
        }
    }

    /// The object's encoding: a blob's header and content, a tree's and a
    /// commit's canonical encoding.
    pub fn encode(&self) -> (res: Vec<u8>)
        ensures
            res@ == match self {
                GitObject::Blob(blob) => object_header(ObjectKind::Blob, blob.length as nat)
                    + blob.contents@,
                GitObject::Tree(tree) => tree_contents(tree.entries.deep_view()),
                GitObject::Commit(commit) => commit_contents(commit@),
            },
    {
        match self {
            GitObject::Blob(blob) => blob.as_bytes(),
            GitObject::Tree(tree) => tree.contents(),
            GitObject::Commit(commit) => commit.as_bytes(),
        }
    }

    /// Decodes an object and gives it the digest `hash`, under which it was
    /// found: the digest of a stored object is not computed again. A blob
    /// that is decoded declares the length of its content.
    pub fn decode(hash: GitHash, bytes: &[u8]) -> (res: Result<Self, ObjectError>)
        ensures
            match res {
                Ok(object) => object.hash() == hash && parsed_object(bytes@) == Ok::<
                    ContentView,
                    ObjectError,
                >(object@),
                Err(e) => parsed_object(bytes@) == Err::<ContentView, ObjectError>(e),
            },
            res matches Ok(GitObject::Blob(blob)) ==> blob.length == blob.contents@.len(),
    {
        match decode_object(bytes) {
            Err(e) => Err(e),
            Ok((kind, payload)) => match kind {
                ObjectKind::Blob => Ok(
                    GitObject::Blob(Blob::new(hash, payload.len(), slice_to_vec(payload))),
                ),
                ObjectKind::Tree => match parse_entries(payload) {
                    Ok(entries) => Ok(GitObject::Tree(Tree::new(hash, entries))),
                    Err(e) => Err(e),
                },
                ObjectKind::Commit => match Commit::from_payload(hash, payload) {
                    Ok(commit) => Ok(GitObject::Commit(commit)),
                    Err(e) => Err(e),
                },
            },
        }
    }
}

/// Reads the object stored under `hash` from what was found at its path:
/// the bytes of the file there, or `None` where there is no file. A blob
/// that is read declares the length of its content.
pub fn load_git_object_from_hash(hash: GitHash, found: Option<&[u8]>) -> (res: Result<
    GitObject,
    ObjectError,
>)
    ensures
        match res {
            Ok(object) => object.hash() == hash && loaded_object(found_view(found)) == Ok::<
                ContentView,
                ObjectError,
            >(object@),
            Err(e) => loaded_object(found_view(found)) == Err::<ContentView, ObjectError>(e),
        },
        res matches Ok(GitObject::Blob(blob)) ==> blob.length == blob.contents@.len(),
{
    match found {
        None => Err(ObjectError::ObjectNotFound),
        Some(stored) => match decompress(stored) {
            Err(e) => Err(e),
            Ok(bytes) => GitObject::decode(hash, bytes.as_slice()),
        },
    }
}

/// The entries of the tree stored under `hash`, in the order in which the
/// tree holds them, from what was found at its path. An object of another
/// kind is refused as corrupt.
pub fn resolve_tree_entries(hash: GitHash, found: Option<&[u8]>) -> (res: Result<
    Vec<TreeEntry>,
    ObjectError,
>)
    ensures
        match loaded_object(found_view(found)) {
            Ok(ContentView::Tree(entries)) => res matches Ok(v) && v.deep_view() == entries,
            Ok(_) => res == Err::<Vec<TreeEntry>, ObjectError>(ObjectError::CorruptObject),
            Err(e) => res == Err::<Vec<TreeEntry>, ObjectError>(e),
        },
{
    match load_git_object_from_hash(hash, found) {
        Err(e) => Err(e),
        Ok(GitObject::Tree(tree)) => Ok(tree.entries),
        Ok(_) => Err(ObjectError::CorruptObject),
    }
}

/// A stored blob reads back as its content: bytes that decompress to the
/// encoding of a blob load as that blob.
pub proof fn lemma_load_stored_blob(stored: Seq<u8>, contents: Seq<u8>)
    requires
        zlib_inflated(stored) == Some(encoded_object(ObjectKind::Blob, contents)),
    ensures
        loaded_object(Some(stored)) == Ok::<ContentView, ObjectError>(ContentView::Blob(contents)),
{
    lemma_decode_encode(ObjectKind::Blob, contents);
}

/// A stored tree reads back as its entries in order of name, where each
/// entry can be read back at all.
pub proof fn lemma_load_stored_tree(stored: Seq<u8>, entries: Seq<EntryView>)
    requires
        zlib_inflated(stored) == Some(tree_contents(entries)),
        forall|i: int| 0 <= i < entries.len() ==> entry_wf(#[trigger] entries[i]),
    ensures
        loaded_object(Some(stored)) == Ok::<ContentView, ObjectError>(
            ContentView::Tree(sorted_entries(entries)),
        ),
{
    lemma_decode_encode(ObjectKind::Tree, crate::tree::tree_payload(entries));
    lemma_parse_tree_payload(entries);
}

/// A stored commit reads back as it was, where it can be read back at all.
pub proof fn lemma_load_stored_commit(stored: Seq<u8>, commit: CommitView)
    requires
        zlib_inflated(stored) == Some(commit_contents(commit)),
        commit_wf(commit),
    ensures
        loaded_object(Some(stored)) == Ok::<ContentView, ObjectError>(ContentView::Commit(commit)),
{
    lemma_decode_encode(ObjectKind::Commit, crate::commit::commit_payload(commit));
    lemma_parse_commit_payload(commit);
}

} // verus!
