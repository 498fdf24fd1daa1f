//! Commits: a tree, at most one parent, who made it and when, and a
//! message.

use vstd::prelude::*;
use vstd::slice::{slice_subrange, slice_to_vec};
use crate::codec::{encode_object, encoded_object, ObjectKind};
use crate::digest::{
    hex_bytes, hex_decoded, is_digest_text, lemma_hex_bytes_decoded, sha1_of, GitHash,
};
use crate::error::ObjectError;
use crate::text::{
    decimal_digits, lemma_line_split_joined, lemma_without_prefix_joined, line_split,
    push_decimal, split_line, strip_prefix, without_prefix,
};

verus! {

/// Who made a commit, and when.
#[derive(Debug, PartialEq, Eq)]
pub struct Signature {
    pub name: Vec<u8>,
    pub email: Vec<u8>,
    /// Seconds since the epoch.
    pub timestamp: u64,
    /// The offset from UTC, as `+hhmm` or `-hhmm`.
    pub time_zone: Vec<u8>,
}

/// What a signature holds.
pub struct SignatureView {
    pub name: Seq<u8>,
    pub email: Seq<u8>,
    pub timestamp: nat,
    pub time_zone: Seq<u8>,
}

impl View for Signature {
    type V = SignatureView;

    open spec fn view(&self) -> SignatureView {
        SignatureView {
            name: self.name@,
            email: self.email@,
            timestamp: self.timestamp as nat,
            time_zone: self.time_zone@,
        }
    }
}

/// A commit. Author and committer are kept as they are written in the
/// payload: name, e-mail address in angle brackets, time and time zone.
#[derive(Debug, PartialEq, Eq)]
pub struct Commit {
    pub hash: GitHash,
    pub tree: GitHash,
    pub parent: Option<GitHash>,
    pub author: Vec<u8>,
    pub committer: Vec<u8>,
    pub message: Vec<u8>,
}

/// What an optional digest holds.
pub open spec fn parent_view(parent: Option<GitHash>) -> Option<Seq<u8>> {
    match parent {
        Some(p) => Some(p@),
        None => None,
    }
}

/// What a commit holds, its own digest aside.
pub struct CommitView {
    pub tree: Seq<u8>,
    pub parent: Option<Seq<u8>>,
    pub author: Seq<u8>,
    pub committer: Seq<u8>,
    pub message: Seq<u8>,
}

impl View for Commit {
    type V = CommitView;

    open spec fn view(&self) -> CommitView {
        CommitView {
            tree: self.tree@,
            parent: parent_view(self.parent),
            author: self.author@,
            committer: self.committer@,
            message: self.message@,
        }
    }
}

/// `"tree "`
pub open spec fn tree_keyword() -> Seq<u8> {
    seq!['t' as u8, 'r' as u8, 'e' as u8, 'e' as u8, ' ' as u8]
}

/// `"parent "`
pub open spec fn parent_keyword() -> Seq<u8> {
    seq!['p' as u8, 'a' as u8, 'r' as u8, 'e' as u8, 'n' as u8, 't' as u8, ' ' as u8]
}

/// `"author "`
pub open spec fn author_keyword() -> Seq<u8> {
    seq!['a' as u8, 'u' as u8, 't' as u8, 'h' as u8, 'o' as u8, 'r' as u8, ' ' as u8]
}

/// `"committer "`
pub open spec fn committer_keyword() -> Seq<u8> {
    seq![
        'c' as u8,
        'o' as u8,
        'm' as u8,
        'm' as u8,
        'i' as u8,
        't' as u8,
        't' as u8,
        'e' as u8,
        'r' as u8,
        ' ' as u8,
    ]
}

/// A line feed.
pub open spec fn line_feed() -> Seq<u8> {
    seq!['\n' as u8]
}

/// A signature as it is written in a commit: the name, the e-mail address
/// in angle brackets, the time in decimal, and the time zone.
pub open spec fn signature_bytes(s: SignatureView) -> Seq<u8> {
    s.name + seq![' ' as u8, '<' as u8] + s.email + seq!['>' as u8, ' ' as u8] + decimal_digits(
        s.timestamp,
    ) + seq![' ' as u8] + s.time_zone
}

/// The line that names a commit's parent; nothing for a commit without.
pub open spec fn parent_line(parent: Option<Seq<u8>>) -> Seq<u8> {
    match parent {
        Some(p) => parent_keyword() + hex_bytes(p) + line_feed(),
        None => Seq::empty(),
    }
}

/// The payload of a commit: a line for the tree, one for the parent where
/// there is one, one for the author, one for the committer, an empty line,
/// and the message with a line feed after it.
pub open spec fn commit_payload(c: CommitView) -> Seq<u8> {
    tree_keyword() + hex_bytes(c.tree) + line_feed() + parent_line(c.parent) + author_keyword()
        + c.author + line_feed() + committer_keyword() + c.committer + line_feed() + line_feed()
        + c.message + line_feed()
}

/// The canonical encoding of a commit.
pub open spec fn commit_contents(c: CommitView) -> Seq<u8> {
    encoded_object(ObjectKind::Commit, commit_payload(c))
}

/// What follows the lines for tree and parent, read into a commit: a line
/// for the author, a line for the committer, an empty line, and a message
/// that ends in a line feed.
pub open spec fn parsed_signatures(rest: Seq<u8>, tree: Seq<u8>, parent: Option<Seq<u8>>) -> Option<
    CommitView,
> {
    match line_split(rest) {
        None => None,
        Some((first, after_first)) => match without_prefix(first, author_keyword()) {
            None => None,
            Some(author) => match line_split(after_first) {
                None => None,
                Some((second, message)) => match without_prefix(second, committer_keyword()) {
                    None => None,
                    Some(committer) => if message.len() >= 2 && message[0] == '\n' as u8
                        && message.last() == '\n' as u8 {
                        Some(
                            CommitView {
                                tree,
                                parent,
                                author,
                                committer,
                                message: message.subrange(1, message.len() - 1),
                            },
                        )
                    } else {
                        None
                    },
                },
            },
        },
    }
}

/// A commit's payload read into its parts, where it has the shape of one:
/// a line with the tree's digest, then a line with the parent's where the
/// second line starts as one, then what `parsed_signatures` reads.
pub open spec fn parsed_commit_fields(payload: Seq<u8>) -> Option<CommitView> {
    match line_split(payload) {
        None => None,
        Some((first, after_first)) => match without_prefix(first, tree_keyword()) {
            None => None,
            Some(tree_text) => if !is_digest_text(tree_text) {
                None
            } else {
                match line_split(after_first) {
                    None => None,
                    Some((second, after_second)) => match without_prefix(second, parent_keyword()) {
                        None => parsed_signatures(after_first, hex_decoded(tree_text), None),
                        Some(parent_text) => if !is_digest_text(parent_text) {
                            None
                        } else {
                            parsed_signatures(
                                after_second,
                                hex_decoded(tree_text),
                                Some(hex_decoded(parent_text)),
                            )
                        },
                    },
                }
            },
        },
    }
}

/// What a commit's payload decodes to; a payload of any other shape is
/// corrupt.
pub open spec fn parsed_commit(payload: Seq<u8>) -> Result<CommitView, ObjectError> {
    match parsed_commit_fields(payload) {
        Some(c) => Ok(c),
        None => Err(ObjectError::CorruptObject),
    }
}

/// `"tree "`
fn tree_keyword_bytes() -> (res: Vec<u8>)
    ensures
        res@ == tree_keyword(),
{
    vec!['t' as u8, 'r' as u8, 'e' as u8, 'e' as u8, ' ' as u8]
}

/// `"parent "`
fn parent_keyword_bytes() -> (res: Vec<u8>)
    ensures
        res@ == parent_keyword(),
{
    vec!['p' as u8, 'a' as u8, 'r' as u8, 'e' as u8, 'n' as u8, 't' as u8, ' ' as u8]
}

/// `"author "`
fn author_keyword_bytes() -> (res: Vec<u8>)
    ensures
        res@ == author_keyword(),
{
    vec!['a' as u8, 'u' as u8, 't' as u8, 'h' as u8, 'o' as u8, 'r' as u8, ' ' as u8]
}

/// `"committer "`
fn committer_keyword_bytes() -> (res: Vec<u8>)
    ensures
        res@ == committer_keyword(),
{
    vec![
        'c' as u8,
        'o' as u8,
        'm' as u8,
        'm' as u8,
        'i' as u8,
        't' as u8,
        't' as u8,
        'e' as u8,
        'r' as u8,
        ' ' as u8,
    ]
}

impl Signature {
    /// The signature as it is written in a commit.
    pub fn to_bytes(&self) -> (res: Vec<u8>)
        ensures
            res@ == signature_bytes(self@),
    {
        let mut out: Vec<u8> = Vec::new();
        out.extend_from_slice(self.name.as_slice());
        out.push(' ' as u8);
        out.push('<' as u8);
        out.extend_from_slice(self.email.as_slice());
        out.push('>' as u8);
        out.push(' ' as u8);
        assert(out@ =~= self.name@ + seq![' ' as u8, '<' as u8] + self.email@ + seq![
            '>' as u8,
            ' ' as u8,
        ]);
        push_decimal(&mut out, self.timestamp);
        out.push(' ' as u8);
        out.extend_from_slice(self.time_zone.as_slice());
        assert(out@ =~= signature_bytes(self@));
        out
    }
}

/// Reads what follows the lines for tree and parent.
fn parse_signatures(rest: &[u8], hash: GitHash, tree: GitHash, parent: Option<GitHash>) -> (res:
    Option<Commit>)
    ensures
        match res {
            Some(c) => c.hash == hash && parsed_signatures(rest@, tree@, parent_view(parent))
                == Some(c@),
            None => parsed_signatures(rest@, tree@, parent_view(parent)) is None,
        },
{
    let (first, after_first) = match split_line(rest) {
        Some(parts) => parts,
        None => { return None; },
    };
    let author = match strip_prefix(first, author_keyword_bytes().as_slice()) {
        Some(text) => text,
        None => { return None; },
    };
    let (second, message) = match split_line(after_first) {
        Some(parts) => parts,
        None => { return None; },
    };
    let committer = match strip_prefix(second, committer_keyword_bytes().as_slice()) {
        Some(text) => text,
        None => { return None; },
    };
    if message.len() < 2 || message[0] != '\n' as u8 || message[message.len() - 1] != '\n' as u8 {
        return None;
    }
    Some(
        Commit {
            hash,
            tree,
            parent,
            author: slice_to_vec(author),
            committer: slice_to_vec(committer),
            message: slice_to_vec(slice_subrange(message, 1, message.len() - 1)),
        },
    )
}

impl Commit {
    /// A commit of the given parts, as they are.
    pub fn new(
        hash: GitHash,
        tree: GitHash,
        parent: Option<GitHash>,
        author: Vec<u8>,
        committer: Vec<u8>,
        message: Vec<u8>,
    ) -> (res: Self)
        ensures
            res.hash == hash,
            res.tree == tree,
            res.parent == parent,
            res.author == author,
            res.committer == committer,
            res.message == message,
    {
        Self { hash, tree, parent, author, committer, message }
    }

    /// Whether the commit carries the digest of its own encoding.
    pub open spec fn wf(&self) -> bool {
        self.hash@ == sha1_of(commit_contents(self@))
    }

    /// The commit's payload.
    pub fn payload(&self) -> (res: Vec<u8>)
        ensures
            res@ == commit_payload(self@),
    {
        let mut out = tree_keyword_bytes();
        self.tree.push_hex(&mut out);
        out.push('\n' as u8);
        let ghost head = out@;
        assert(head =~= tree_keyword() + hex_bytes(self.tree@) + line_feed());
        match self.parent {
            Some(parent) => {
                out.extend_from_slice(parent_keyword_bytes().as_slice());
                parent.push_hex(&mut out);
                out.push('\n' as u8);
                assert(out@ =~= head + parent_line(self@.parent));
            },
            None => {
                assert(out@ =~= head + parent_line(self@.parent));
            },
        }
        let ghost lines = out@;
        out.extend_from_slice(author_keyword_bytes().as_slice());
        out.extend_from_slice(self.author.as_slice());
        out.push('\n' as u8);
        out.extend_from_slice(committer_keyword_bytes().as_slice());
        out.extend_from_slice(self.committer.as_slice());
        out.push('\n' as u8);
        out.push('\n' as u8);
        out.extend_from_slice(self.message.as_slice());
        out.push('\n' as u8);
        assert(out@ =~= lines + author_keyword() + self.author@ + line_feed() + committer_keyword()
            + self.committer@ + line_feed() + line_feed() + self.message@ + line_feed());
        assert(out@ =~= commit_payload(self@));
        out
    }

    /// The commit's canonical encoding.
    pub fn as_bytes(&self) -> (res: Vec<u8>)
        ensures
            res@ == commit_contents(self@),
    {
        let payload = self.payload();
        encode_object(ObjectKind::Commit, payload.as_slice())
    }

    /// Reads a commit from its payload and gives it the digest `hash`. A
    /// payload that has not the shape of a commit is corrupt.
    pub fn from_payload(hash: GitHash, payload: &[u8]) -> (res: Result<Self, ObjectError>)
        ensures
            match res {
                Ok(c) => c.hash == hash && parsed_commit(payload@) == Ok::<CommitView, ObjectError>(
                    c@,
                ),
                Err(e) => parsed_commit(payload@) == Err::<CommitView, ObjectError>(e),
            },
    {
        let (first, after_first) = match split_line(payload) {
            Some(parts) => parts,
            None => { return Err(ObjectError::CorruptObject); },
        };
        let tree_text = match strip_prefix(first, tree_keyword_bytes().as_slice()) {
            Some(text) => text,
            None => { return Err(ObjectError::CorruptObject); },
        };
        let tree = match GitHash::from_hex(tree_text) {
            Ok(h) => h,
            Err(_) => { return Err(ObjectError::CorruptObject); },
        };
        let (second, after_second) = match split_line(after_first) {
            Some(parts) => parts,
            None => { return Err(ObjectError::CorruptObject); },
        };
        let parsed = match strip_prefix(second, parent_keyword_bytes().as_slice()) {
            None => parse_signatures(after_first, hash, tree, None),
            Some(parent_text) => match GitHash::from_hex(parent_text) {
                Ok(parent) => parse_signatures(after_second, hash, tree, Some(parent)),
                Err(_) => { return Err(ObjectError::CorruptObject); },
            },
        };
        match parsed {
            Some(c) => Ok(c),
            None => Err(ObjectError::CorruptObject),
        }
    }
}

/// Makes the commit of `tree` with at most one parent, by `author` as both
/// author and committer, with `message`. Its digest is that of its
/// canonical encoding.
pub fn git_commit_tree(
    tree: GitHash,
    parent: Option<GitHash>,
    author: &Signature,
    message: &[u8],
) -> (res: Commit)
    ensures
        res@ == (CommitView {
            tree: tree@,
            parent: parent_view(parent),
            author: signature_bytes(author@),
            committer: signature_bytes(author@),
            message: message@,
        }),
        res.wf(),
{
    let zero = [0u8; 20];
    let mut commit = Commit {
        hash: GitHash::new(zero),
        tree,
        parent,
        author: author.to_bytes(),
        committer: author.to_bytes(),
        message: slice_to_vec(message),
    };
    let ghost held = commit@;
    let contents = commit.as_bytes();
    commit.hash = GitHash::compute(contents.as_slice());
    assert(commit@ == held);
    commit
}

/// Whether `text` holds no line feed.
pub open spec fn one_line(text: Seq<u8>) -> bool {
    forall|i: int| 0 <= i < text.len() ==> text[i] != '\n' as u8
}

/// Whether a commit can be read back from its payload: its digests have
/// twenty bytes, and author and committer are one line each.
pub open spec fn commit_wf(c: CommitView) -> bool {
    &&& c.tree.len() == 20
    &&& c.parent matches Some(p) ==> p.len() == 20
    &&& one_line(c.author)
    &&& one_line(c.committer)
}

/// The lines for author and committer, the empty line and the message read
/// back as they were written.
proof fn lemma_parse_signatures_written(c: CommitView)
    requires
        one_line(c.author),
        one_line(c.committer),
    ensures
        parsed_signatures(
            author_keyword() + c.author + line_feed() + committer_keyword() + c.committer
                + line_feed() + line_feed() + c.message + line_feed(),
            c.tree,
            c.parent,
        ) == Some(c),
{
    let message = line_feed() + c.message + line_feed();
    let second = committer_keyword() + c.committer;
    let after_first = second + line_feed() + message;
    let first = author_keyword() + c.author;
    let rest = first + line_feed() + after_first;
    assert(rest =~= author_keyword() + c.author + line_feed() + committer_keyword() + c.committer
        + line_feed() + line_feed() + c.message + line_feed());
    lemma_line_split_joined(first, after_first);
    lemma_without_prefix_joined(author_keyword(), c.author);
    lemma_line_split_joined(second, message);
    lemma_without_prefix_joined(committer_keyword(), c.committer);
    assert(message.subrange(1, message.len() - 1) =~= c.message);
}

/// A commit's payload reads back as the commit: decoding what was encoded
/// gives tree, parent, author, committer and message as they were.
pub proof fn lemma_parse_commit_payload(c: CommitView)
    requires
        commit_wf(c),
    ensures
        parsed_commit(commit_payload(c)) == Ok::<CommitView, ObjectError>(c),
{
    let signatures = author_keyword() + c.author + line_feed() + committer_keyword() + c.committer
        + line_feed() + line_feed() + c.message + line_feed();
    let first = tree_keyword() + hex_bytes(c.tree);
    let after_first = parent_line(c.parent) + signatures;
    let payload = first + line_feed() + after_first;
    assert(payload =~= commit_payload(c));
    lemma_hex_bytes_decoded(c.tree);
    assert forall|i: int| 0 <= i < first.len() implies first[i] != '\n' as u8 by {
        if i >= 5 {
            assert(crate::digest::hex_value(hex_bytes(c.tree)[i - 5]) is Some);
        }
    }
    lemma_line_split_joined(first, after_first);
    lemma_without_prefix_joined(tree_keyword(), hex_bytes(c.tree));
    lemma_parse_signatures_written(c);
    match c.parent {
        Some(p) => {
            let second = parent_keyword() + hex_bytes(p);
            lemma_hex_bytes_decoded(p);
            assert forall|i: int| 0 <= i < second.len() implies second[i] != '\n' as u8 by {
                if i >= 7 {
                    assert(crate::digest::hex_value(hex_bytes(p)[i - 7]) is Some);
                }
            }
            assert(after_first =~= second + line_feed() + signatures);
            lemma_line_split_joined(second, signatures);
            lemma_without_prefix_joined(parent_keyword(), hex_bytes(p));
        },
        None => {
            let second = author_keyword() + c.author;
            let after_second = committer_keyword() + c.committer + line_feed() + line_feed()
                + c.message + line_feed();
            assert(after_first =~= second + line_feed() + after_second);
            lemma_line_split_joined(second, after_second);
            assert(second[0] != parent_keyword()[0]);
            assert(second.take(7)[0] == second[0]);
        },
    }
}

} // verus!
