//! A content-addressable object database in the style of a version-control
//! system: blobs, trees and commits, each stored under the SHA-1 digest of
//! its canonical encoding.
//!
//! The library computes; it touches no file. A caller reads and writes the
//! store, and hands the library bytes and directory listings.

pub mod error;
pub mod digest;
pub mod text;
pub mod codec;
pub mod zlib;
pub mod blob;
pub mod tree;
pub mod snapshot;
pub mod commit;
pub mod object;

pub use crate::blob::Blob;
pub use crate::codec::{decode_object, encode_object, ObjectKind};
pub use crate::commit::{git_commit_tree, Commit, Signature};
pub use crate::digest::GitHash;
pub use crate::error::ObjectError;
pub use crate::object::{load_git_object_from_hash, resolve_tree_entries, GitObject};
pub use crate::snapshot::{DirNode, EncodedObject};
pub use crate::tree::{Tree, TreeEntry};
pub use crate::zlib::{compress, decompress};
