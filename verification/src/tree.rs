//! Trees: one directory level, as entries in byte-wise order of their names.

use vstd::prelude::*;
use vstd::slice::{slice_subrange, slice_to_vec};
use crate::codec::{decode_object, decoded_object, encode_object, encoded_object, ObjectKind};
use crate::digest::{sha1_of, GitHash};
use crate::error::ObjectError;
use crate::text::{
    find_byte, first_index_of, lemma_first_index_of, lemma_first_index_of_unique,
    lemma_lex_le_antisymmetric, lemma_lex_le_total, lemma_lex_le_transitive, lex_le, lex_le_bytes,
};

verus! {

/// One entry of a tree: a mode, the name of a child, and the child's digest.
#[derive(Debug, PartialEq, Eq)]
pub struct TreeEntry {
    pub mode: Vec<u8>,
    pub hash: GitHash,
    pub name: Vec<u8>,
}

/// What an entry holds.
pub struct EntryView {
    pub mode: Seq<u8>,
    pub hash: Seq<u8>,
    pub name: Seq<u8>,
}

impl View for TreeEntry {
    type V = EntryView;

    open spec fn view(&self) -> EntryView {
        EntryView { mode: self.mode@, hash: self.hash@, name: self.name@ }
    }
}

impl DeepView for TreeEntry {
    type V = EntryView;

    open spec fn deep_view(&self) -> EntryView {
        self@
    }
}

impl Clone for TreeEntry {
    fn clone(&self) -> (res: Self)
        ensures
            res@ == self@,
    {
        let mode = self.mode.clone();
        let name = self.name.clone();
        assert(mode@ =~= self.mode@);
        assert(name@ =~= self.name@);
        Self { mode, hash: self.hash, name }
    }
}

/// A tree: its entries and its digest.
#[derive(Debug, PartialEq, Eq)]
pub struct Tree {
    pub hash: GitHash,
    pub entries: Vec<TreeEntry>,
}

/// The encoding of one entry: mode, a space, name, a NUL byte, and the
/// twenty raw bytes of the digest.
pub open spec fn entry_bytes(e: EntryView) -> Seq<u8> {
    e.mode + seq![' ' as u8] + e.name + seq![0u8] + e.hash
}

/// The encodings of `es` one after another, in the order given.
pub open spec fn entries_bytes(es: Seq<EntryView>) -> Seq<u8>
    decreases es.len(),
{
    if es.len() == 0 {
        Seq::empty()
    } else {
        entry_bytes(es[0]) + entries_bytes(es.drop_first())
    }
}

/// Whether the names of `es` never go down in byte-wise order.
pub open spec fn sorted_by_name(es: Seq<EntryView>) -> bool {
    forall|i: int, j: int|
        0 <= i < j < es.len() ==> lex_le(#[trigger] es[i].name, #[trigger] es[j].name)
}

/// `sorted` with `e` put in front of the first entry whose name is not
/// before that of `e`.
pub open spec fn insert_by_name(e: EntryView, sorted: Seq<EntryView>) -> Seq<EntryView>
    decreases sorted.len(),
{
    if sorted.len() == 0 || lex_le(e.name, sorted[0].name) {
        seq![e] + sorted
    } else {
        seq![sorted[0]] + insert_by_name(e, sorted.drop_first())
    }
}

/// The entries in byte-wise order of their names; entries of one name keep
/// the order in which they were given.
pub open spec fn sorted_entries(es: Seq<EntryView>) -> Seq<EntryView>
    decreases es.len(),
{
    if es.len() == 0 {
        Seq::empty()
    } else {
        insert_by_name(es[0], sorted_entries(es.drop_first()))
    }
}

/// The payload of the tree with entries `es`: their encodings in order of
/// name.
pub open spec fn tree_payload(es: Seq<EntryView>) -> Seq<u8> {
    entries_bytes(sorted_entries(es))
}

/// The canonical encoding of the tree with entries `es`.
pub open spec fn tree_contents(es: Seq<EntryView>) -> Seq<u8> {
    encoded_object(ObjectKind::Tree, tree_payload(es))
}

/// What follows a first result where that result is entries: `first` in
/// front of them; an error stays.
pub open spec fn entries_then(
    first: Seq<EntryView>,
    rest: Result<Seq<EntryView>, ObjectError>,
) -> Result<Seq<EntryView>, ObjectError> {
    match rest {
        Ok(es) => Ok(first + es),
        Err(e) => Err(e),
    }
}

/// The entries of a payload at whose start an entry is expected. An entry
/// is text up to the first NUL, then exactly twenty bytes of digest,
/// whatever those are; the text parts at its first space into mode and
/// name. An entry whose text has no NUL, or fewer than twenty bytes after
/// it, is truncated; one whose text has no space is corrupt. Once a digest
/// has been taken, fewer than twenty bytes that remain end the list, and
/// twenty or more start the next entry.
pub open spec fn parsed_entries_from(payload: Seq<u8>) -> Result<Seq<EntryView>, ObjectError>
    decreases payload.len(),
{
    let nul = first_index_of(payload, 0);
    let text = payload.take(nul);
    let space = first_index_of(text, ' ' as u8);
    let rest = payload.skip(nul + 21);
    if payload.len() - nul < 21 {
        Err(ObjectError::TruncatedObject)
    } else if space == text.len() {
        Err(ObjectError::CorruptObject)
    } else {
        proof {
            lemma_first_index_of(payload, 0);
        }
        entries_then(
            seq![
                EntryView {
                    mode: text.take(space),
                    hash: payload.subrange(nul + 1, nul + 21),
                    name: text.skip(space + 1),
                },
            ],
            if rest.len() < 20 {
                Ok(Seq::empty())
            } else {
                parsed_entries_from(rest)
            },
        )
    }
}

/// The entries that a tree's payload holds: none for an empty payload; any
/// other payload starts with an entry, as `parsed_entries_from` reads it.
pub open spec fn parsed_entries(payload: Seq<u8>) -> Result<Seq<EntryView>, ObjectError> {
    if payload.len() == 0 {
        Ok(Seq::empty())
    } else {
        parsed_entries_from(payload)
    }
}

/// What a whole encoded tree decodes to: its framing must hold, its kind
/// must be `tree` (any other is corrupt), and its payload must be entries.
pub open spec fn decoded_tree(contents: Seq<u8>) -> Result<Seq<EntryView>, ObjectError> {
    match decoded_object(contents) {
        Err(e) => Err(e),
        Ok((kind, payload)) => if kind == ObjectKind::Tree {
            parsed_entries(payload)
        } else {
            Err(ObjectError::CorruptObject)
        },
    }
}

/// Encoding one more entry appends its bytes.
pub proof fn lemma_entries_bytes_push(es: Seq<EntryView>, e: EntryView)
    ensures
        entries_bytes(es.push(e)) == entries_bytes(es) + entry_bytes(e),
    decreases es.len(),
{
    if es.len() == 0 {
        assert(es.push(e).drop_first() =~= es);
        assert(es.push(e)[0] == e);
        assert(entries_bytes(es) =~= Seq::<u8>::empty());
        assert(entries_bytes(es.push(e)) =~= entries_bytes(es) + entry_bytes(e));
    } else {
        lemma_entries_bytes_push(es.drop_first(), e);
        assert(es.push(e).drop_first() =~= es.drop_first().push(e));
        assert(entries_bytes(es.push(e)) =~= entries_bytes(es) + entry_bytes(e));
    }
}

/// Where no entry before index `at` has a name at or after that of `e`, and
/// the entry at `at` (if any) has, `insert_by_name` puts `e` at `at`.
pub proof fn lemma_insert_by_name_at(e: EntryView, sorted: Seq<EntryView>, at: int)
    requires
        0 <= at <= sorted.len(),
        forall|j: int| 0 <= j < at ==> !lex_le(e.name, #[trigger] sorted[j].name),
        at < sorted.len() ==> lex_le(e.name, sorted[at].name),
    ensures
        insert_by_name(e, sorted) == sorted.insert(at, e),
    decreases at,
{
    if at == 0 {
        assert(insert_by_name(e, sorted) =~= sorted.insert(at, e));
    } else {
        assert(!lex_le(e.name, sorted[0].name));
        let rest = sorted.drop_first();
        assert forall|j: int| 0 <= j < at - 1 implies !lex_le(e.name, #[trigger] rest[j].name) by {
            assert(rest[j] == sorted[j + 1]);
        }
        lemma_insert_by_name_at(e, rest, at - 1);
        assert(insert_by_name(e, sorted) =~= sorted.insert(at, e));
    }
}

/// Appends the encoding of `entry` to `out`.
fn push_entry(out: &mut Vec<u8>, entry: &TreeEntry)
    ensures
        final(out)@ == old(out)@ + entry_bytes(entry@),
{
    out.extend_from_slice(entry.mode.as_slice());
    out.push(' ' as u8);
    out.extend_from_slice(entry.name.as_slice());
    out.push(0);
    out.extend_from_slice(entry.hash.hash.as_slice());
    assert(out@ =~= old(out)@ + entry_bytes(entry@));
}

/// The encodings of `entries` one after another, in the order given.
fn entries_in_order(entries: &[TreeEntry]) -> (res: Vec<u8>)
    ensures
        res@ == entries_bytes(entries.deep_view()),
{
    let mut out: Vec<u8> = Vec::new();
    let mut i: usize = 0;
    let ghost es = entries.deep_view();
    assert(es.take(0) =~= Seq::<EntryView>::empty());
    while i < entries.len()
        invariant
            i <= entries@.len(),
            es == entries.deep_view(),
            out@ == entries_bytes(es.take(i as int)),
        decreases entries@.len() - i,
    {
        push_entry(&mut out, &entries[i]);
        proof {
            lemma_entries_bytes_push(es.take(i as int), es[i as int]);
            assert(es.take(i as int).push(es[i as int]) =~= es.take(i + 1));
        }
        i += 1;
    }
    assert(es.take(entries@.len() as int) =~= es);
    out
}

/// A copy of `entries`.
fn clone_entries(entries: &[TreeEntry]) -> (res: Vec<TreeEntry>)
    ensures
        res.deep_view() == entries.deep_view(),
{
    let mut out: Vec<TreeEntry> = Vec::new();
    let mut i: usize = 0;
    while i < entries.len()
        invariant
            i <= entries@.len(),
            out@.len() == i,
            forall|j: int| 0 <= j < i ==> out@[j]@ == entries@[j]@,
        decreases entries@.len() - i,
    {
        out.push(entries[i].clone());
        i += 1;
    }
    assert(out.deep_view() =~= entries.deep_view());
    out
}

/// Sorts entries by name, byte-wise; entries of one name keep their order.
pub fn sort_entries(entries: Vec<TreeEntry>) -> (res: Vec<TreeEntry>)
    ensures
        res.deep_view() == sorted_entries(entries.deep_view()),
{
    let ghost es = entries.deep_view();
    let mut rest = entries;
    let mut out: Vec<TreeEntry> = Vec::new();
    assert(es.skip(es.len() as int) =~= Seq::<EntryView>::empty());
    assert(out.deep_view() =~= Seq::<EntryView>::empty());
    while rest.len() > 0
        invariant
            rest@.len() <= es.len(),
            rest.deep_view() == es.take(rest@.len() as int),
            out.deep_view() == sorted_entries(es.skip(rest@.len() as int)),
        decreases rest@.len(),
    {
        let ghost before = rest.deep_view();
        let ghost sorted = out.deep_view();
        let ghost n = rest@.len() as int;
        let entry = rest.pop().unwrap();
        assert(entry@ == before[n - 1]);
        assert(entry@ == es[n - 1]);
        let mut at: usize = 0;
        while at < out.len() && !lex_le_bytes(entry.name.as_slice(), out[at].name.as_slice())
            invariant
                at <= out@.len(),
                sorted == out.deep_view(),
                forall|j: int| 0 <= j < at ==> !lex_le(entry@.name, #[trigger] sorted[j].name),
            decreases out@.len() - at,
        {
            assert(sorted[at as int] == out@[at as int]@);
            at += 1;
        }
        proof {
            if at < out@.len() {
                assert(sorted[at as int] == out@[at as int]@);
            }
            lemma_insert_by_name_at(entry@, sorted, at as int);
            assert(es.skip(n - 1).drop_first() =~= es.skip(n));
            assert(es.skip(n - 1)[0] == es[n - 1]);
        }
        out.insert(at, entry);
        assert(out.deep_view() =~= sorted.insert(at as int, entry@));
        assert(rest.deep_view() =~= es.take(rest@.len() as int));
    }
    assert(es.skip(0) =~= es);
    out
}

/// Reads the entries of a tree from its payload.
pub fn parse_entries(payload: &[u8]) -> (res: Result<Vec<TreeEntry>, ObjectError>)
    ensures
        match res {
            Ok(entries) => parsed_entries(payload@) == Ok::<Seq<EntryView>, ObjectError>(
                entries.deep_view(),
            ),
            Err(e) => parsed_entries(payload@) == Err::<Seq<EntryView>, ObjectError>(e),
        },
{
    let mut entries: Vec<TreeEntry> = Vec::new();
    if payload.len() == 0 {
        assert(entries.deep_view() =~= Seq::<EntryView>::empty());
        return Ok(entries);
    }
    let mut pos: usize = 0;
    assert(payload@.skip(0) =~= payload@);
    assert(entries.deep_view() =~= Seq::<EntryView>::empty());
    loop
        invariant
            pos <= payload@.len(),
            parsed_entries(payload@) == entries_then(
                entries.deep_view(),
                parsed_entries_from(payload@.skip(pos as int)),
            ),
        decreases payload@.len() - pos,
    {
        let ghost rest = payload@.skip(pos as int);
        let ghost done = entries.deep_view();
        let nul = find_byte(payload, pos, 0);
        if payload.len() - nul < 21 {
            return Err(ObjectError::TruncatedObject);
        }
        let text = slice_subrange(payload, pos, nul);
        assert(text@ =~= rest.take(nul - pos));
        let space = find_byte(text, 0, ' ' as u8);
        assert(text@.skip(0) =~= text@);
        if space == text.len() {
            return Err(ObjectError::CorruptObject);
        }
        let mode = slice_to_vec(slice_subrange(text, 0, space));
        let name = slice_to_vec(slice_subrange(text, space + 1, text.len()));
        let hash = GitHash::from_raw(slice_subrange(payload, nul + 1, nul + 21));
        let entry = TreeEntry { mode, hash, name };
        let ghost after = payload@.skip(nul + 21);
        let ghost tail = if after.len() < 20 {
            Ok::<Seq<EntryView>, ObjectError>(Seq::empty())
        } else {
            parsed_entries_from(after)
        };
        proof {
            assert(entry@.mode =~= text@.take(space as int));
            assert(entry@.name =~= text@.skip(space + 1));
            assert(entry@.hash =~= rest.subrange(nul - pos + 1, nul - pos + 21));
            assert(rest.skip(nul - pos + 21) =~= after);
            assert(parsed_entries_from(rest) == entries_then(seq![entry@], tail));
            match tail {
                Ok(es) => {
                    assert(done + (seq![entry@] + es) =~= done.push(entry@) + es);
                },
                Err(_) => {},
            }
        }
        entries.push(entry);
        assert(entries.deep_view() =~= done.push(entry@));
        pos = nul + 21;
        if payload.len() - pos < 20 {
            assert(entries.deep_view() + Seq::<EntryView>::empty() =~= entries.deep_view());
            return Ok(entries);
        }
    }
}

impl Tree {
    /// Whether the tree holds its entries in order of name and carries the
    /// digest of its own encoding.
    pub open spec fn wf(&self) -> bool {
        &&& sorted_by_name(self.entries.deep_view())
        &&& self.hash@ == sha1_of(tree_contents(self.entries.deep_view()))
    }

    /// The tree with these entries, put in byte-wise order of name; its
    /// digest is that of its canonical encoding.
    pub fn from_entries(entries: Vec<TreeEntry>) -> (res: Self)
        ensures
            res.entries.deep_view() == sorted_entries(entries.deep_view()),
            res.hash@ == sha1_of(tree_contents(entries.deep_view())),
            res.wf(),
    {
        let sorted = sort_entries(entries);
        let body = entries_in_order(sorted.as_slice());
        let contents = encode_object(ObjectKind::Tree, body.as_slice());
        let hash = GitHash::compute(contents.as_slice());
        proof {
            lemma_sorted_entries_sorted(entries.deep_view());
            lemma_sorted_entries_of_sorted(sorted.deep_view());
        }
        Self { hash, entries: sorted }
    }

    /// Reads a tree from its whole encoding, header included. Its digest
    /// is that of the bytes given.
    pub fn from_tree_file(contents: &[u8]) -> (res: Result<Self, ObjectError>)
        ensures
            match res {
                Ok(tree) => decoded_tree(contents@) == Ok::<Seq<EntryView>, ObjectError>(
                    tree.entries.deep_view(),
                ) && tree.hash@ == sha1_of(contents@),
                Err(e) => decoded_tree(contents@) == Err::<Seq<EntryView>, ObjectError>(e),
            },
    {
        match decode_object(contents) {
            Err(e) => Err(e),
            Ok((kind, payload)) => {
                if kind != ObjectKind::Tree {
                    return Err(ObjectError::CorruptObject);
                }
                match parse_entries(payload) {
                    Err(e) => Err(e),
                    Ok(entries) => Ok(Self { hash: GitHash::compute(contents), entries }),
                }
            },
        }
    }

    /// A tree of the given parts, as they are.
    pub fn new(hash: GitHash, entries: Vec<TreeEntry>) -> (res: Self)
        ensures
            res.hash == hash,
            res.entries == entries,
    {
        Self { hash, entries }
    }

    /// The payload of the tree with these entries: their encodings in
    /// byte-wise order of name, whatever order they were given in.
    pub fn body_from_entries(entries: &[TreeEntry]) -> (res: Vec<u8>)
        ensures
            res@ == tree_payload(entries.deep_view()),
    {
        let sorted = sort_entries(clone_entries(entries));
        entries_in_order(sorted.as_slice())
    }

    /// The canonical encoding of the tree with these entries.
    pub fn contents_from_entries(entries: &[TreeEntry]) -> (res: Vec<u8>)
        ensures
            res@ == tree_contents(entries.deep_view()),
    {
        let body = Self::body_from_entries(entries);
        encode_object(ObjectKind::Tree, body.as_slice())
    }

    /// The canonical encoding of this tree.
    pub fn contents(&self) -> (res: Vec<u8>)
        ensures
            res@ == tree_contents(self.entries.deep_view()),
    {
        Self::contents_from_entries(self.entries.as_slice())
    }
}

/// `insert_by_name` inserts `e` at one index: no entry before it has a name
/// at or after that of `e`, and the entry that follows has.
pub proof fn lemma_insert_by_name_index(e: EntryView, sorted: Seq<EntryView>) -> (at: int)
    ensures
        0 <= at <= sorted.len(),
        insert_by_name(e, sorted) == sorted.insert(at, e),
        forall|j: int| 0 <= j < at ==> !lex_le(e.name, #[trigger] sorted[j].name),
        at < sorted.len() ==> lex_le(e.name, sorted[at].name),
    decreases sorted.len(),
{
    if sorted.len() == 0 || lex_le(e.name, sorted[0].name) {
        lemma_insert_by_name_at(e, sorted, 0);
        0
    } else {
        let rest = sorted.drop_first();
        let at = lemma_insert_by_name_index(e, rest);
        assert forall|j: int| 0 <= j < at + 1 implies !lex_le(
            e.name,
            #[trigger] sorted[j].name,
        ) by {
            if j > 0 {
                assert(sorted[j] == rest[j - 1]);
            }
        }
        if at + 1 < sorted.len() {
            assert(sorted[at + 1] == rest[at]);
        }
        lemma_insert_by_name_at(e, sorted, at + 1);
        at + 1
    }
}

/// Sorting gives entries in order of name.
pub proof fn lemma_sorted_entries_sorted(es: Seq<EntryView>)
    ensures
        sorted_by_name(sorted_entries(es)),
    decreases es.len(),
{
    if es.len() > 0 {
        let e = es[0];
        let rest = sorted_entries(es.drop_first());
        lemma_sorted_entries_sorted(es.drop_first());
        let at = lemma_insert_by_name_index(e, rest);
        let out = rest.insert(at, e);
        assert forall|i: int, j: int| 0 <= i < j < out.len() implies lex_le(
            #[trigger] out[i].name,
            #[trigger] out[j].name,
        ) by {
            if j == at {
                assert(out[i] == rest[i]);
                lemma_lex_le_total(e.name, rest[i].name);
            } else if i == at {
                assert(out[j] == rest[j - 1]);
                if at < j - 1 {
                    lemma_lex_le_transitive(e.name, rest[at].name, rest[j - 1].name);
                }
            } else {
                let ri = if i < at { i } else { i - 1 };
                let rj = if j < at { j } else { j - 1 };
                assert(out[i] == rest[ri] && out[j] == rest[rj]);
            }
        }
    }
}

/// Sorting keeps the entries: each occurs as often as it was given.
pub proof fn lemma_sorted_entries_permutes(es: Seq<EntryView>)
    ensures
        sorted_entries(es).to_multiset() == es.to_multiset(),
        sorted_entries(es).len() == es.len(),
    decreases es.len(),
{
    broadcast use vstd::seq_lib::group_to_multiset_ensures;

    if es.len() > 0 {
        let e = es[0];
        let rest = sorted_entries(es.drop_first());
        lemma_sorted_entries_permutes(es.drop_first());
        let at = lemma_insert_by_name_index(e, rest);
        assert(es =~= es.drop_first().insert(0, e));
        assert(rest.insert(at, e).to_multiset() =~= rest.to_multiset().insert(e));
        let tail = es.drop_first();
        assert(tail.insert(0, e).to_multiset() =~= tail.to_multiset().insert(e));
    } else {
        assert(sorted_entries(es) =~= es);
    }
}

/// Entries that are in order of name already are left as they are.
pub proof fn lemma_sorted_entries_of_sorted(es: Seq<EntryView>)
    requires
        sorted_by_name(es),
    ensures
        sorted_entries(es) == es,
    decreases es.len(),
{
    if es.len() > 0 {
        let rest = es.drop_first();
        assert forall|i: int, j: int| 0 <= i < j < rest.len() implies lex_le(
            #[trigger] rest[i].name,
            #[trigger] rest[j].name,
        ) by {
            assert(rest[i] == es[i + 1] && rest[j] == es[j + 1]);
        }
        lemma_sorted_entries_of_sorted(rest);
        if rest.len() > 0 {
            assert(rest[0] == es[1]);
        }
        lemma_insert_by_name_at(es[0], rest, 0);
        assert(rest.insert(0, es[0]) =~= es);
    } else {
        assert(sorted_entries(es) =~= es);
    }
}

/// Whether no two entries of `es` have one name.
pub open spec fn distinct_names(es: Seq<EntryView>) -> bool {
    forall|i: int, j: int|
        0 <= i < j < es.len() ==> (#[trigger] es[i]).name != (#[trigger] es[j]).name
}

/// Whether an entry can be read back from its encoding: its mode holds no
/// space and no NUL, its name no NUL, and its digest has twenty bytes.
pub open spec fn entry_wf(e: EntryView) -> bool {
    &&& forall|i: int| 0 <= i < e.mode.len() ==> #[trigger] e.mode[i] != 0 && e.mode[i] != ' ' as u8
    &&& forall|i: int| 0 <= i < e.name.len() ==> #[trigger] e.name[i] != 0
    &&& e.hash.len() == 20
}

/// Two arrangements of the same entries, each in order of name, are one
/// arrangement where no name occurs twice.
pub proof fn lemma_sorted_arrangement_unique(a: Seq<EntryView>, b: Seq<EntryView>)
    requires
        sorted_by_name(a),
        sorted_by_name(b),
        distinct_names(a),
        a.to_multiset() == b.to_multiset(),
    ensures
        a == b,
    decreases a.len(),
{
    broadcast use vstd::seq_lib::group_to_multiset_ensures;

    vstd::seq_lib::to_multiset_len(a);
    vstd::seq_lib::to_multiset_len(b);
    if a.len() == 0 {
        assert(a =~= b);
    } else {
        assert(a.contains(a[0]));
        assert(b.to_multiset().count(a[0]) > 0);
        assert(b.contains(a[0]));
        let j = choose|j: int| 0 <= j < b.len() && b[j] == a[0];
        assert(b.contains(b[0]));
        assert(a.to_multiset().count(b[0]) > 0);
        assert(a.contains(b[0]));
        let k = choose|k: int| 0 <= k < a.len() && a[k] == b[0];
        if j == 0 {
        } else {
            assert(lex_le(b[0].name, b[j].name));
            if k != 0 {
                assert(lex_le(a[0].name, a[k].name));
                lemma_lex_le_antisymmetric(a[0].name, b[0].name);
                assert(a[0].name == a[k].name);
            }
        }
        assert(a[0] == b[0]);
        let ra = a.drop_first();
        let rb = b.drop_first();
        assert(ra =~= a.remove(0));
        assert(rb =~= b.remove(0));
        assert(ra.to_multiset() =~= a.to_multiset().remove(a[0]));
        assert(rb.to_multiset() =~= b.to_multiset().remove(b[0]));
        assert forall|i: int, j: int| 0 <= i < j < ra.len() implies lex_le(
            #[trigger] ra[i].name,
            #[trigger] ra[j].name,
        ) by {
            assert(ra[i] == a[i + 1] && ra[j] == a[j + 1]);
        }
        assert forall|i: int, j: int| 0 <= i < j < rb.len() implies lex_le(
            #[trigger] rb[i].name,
            #[trigger] rb[j].name,
        ) by {
            assert(rb[i] == b[i + 1] && rb[j] == b[j + 1]);
        }
        assert forall|i: int, j: int| 0 <= i < j < ra.len() implies (#[trigger] ra[i]).name != (
        #[trigger] ra[j]).name by {
            assert(ra[i] == a[i + 1] && ra[j] == a[j + 1]);
        }
        lemma_sorted_arrangement_unique(ra, rb);
        assert(a =~= seq![a[0]] + ra);
        assert(b =~= seq![b[0]] + rb);
    }
}

/// Sorting keeps names distinct.
pub proof fn lemma_sorted_entries_distinct(es: Seq<EntryView>)
    requires
        distinct_names(es),
    ensures
        distinct_names(sorted_entries(es)),
    decreases es.len(),
{
    broadcast use vstd::seq_lib::group_to_multiset_ensures;

    if es.len() > 0 {
        let e = es[0];
        let tail = es.drop_first();
        assert forall|i: int, j: int| 0 <= i < j < tail.len() implies (#[trigger] tail[i]).name != (
        #[trigger] tail[j]).name by {
            assert(tail[i] == es[i + 1] && tail[j] == es[j + 1]);
        }
        lemma_sorted_entries_distinct(tail);
        lemma_sorted_entries_permutes(tail);
        let rest = sorted_entries(tail);
        let at = lemma_insert_by_name_index(e, rest);
        let out = rest.insert(at, e);
        assert forall|i: int| 0 <= i < rest.len() implies (#[trigger] rest[i]).name != e.name by {
            assert(rest.contains(rest[i]));
            assert(tail.to_multiset().count(rest[i]) > 0);
            assert(tail.contains(rest[i]));
            let k = choose|k: int| 0 <= k < tail.len() && tail[k] == rest[i];
            assert(es[k + 1] == tail[k]);
            assert(es[0].name != es[k + 1].name);
        }
        assert forall|i: int, j: int| 0 <= i < j < out.len() implies (#[trigger] out[i]).name != (
        #[trigger] out[j]).name by {
            let ri = if i < at { i } else { i - 1 };
            let rj = if j < at { j } else { j - 1 };
            if i == at {
                assert(out[j] == rest[rj]);
            } else if j == at {
                assert(out[i] == rest[ri]);
            } else {
                assert(out[i] == rest[ri] && out[j] == rest[rj]);
            }
        }
    }
}

/// The order in which entries are given does not matter to a tree: where
/// no name occurs twice, two sequences of the same entries sort to one
/// sequence, and so have one encoding and one digest.
pub proof fn lemma_tree_order_free(es1: Seq<EntryView>, es2: Seq<EntryView>)
    requires
        distinct_names(es1),
        es1.to_multiset() == es2.to_multiset(),
    ensures
        sorted_entries(es1) == sorted_entries(es2),
        tree_contents(es1) == tree_contents(es2),
        sha1_of(tree_contents(es1)) == sha1_of(tree_contents(es2)),
{
    lemma_sorted_entries_sorted(es1);
    lemma_sorted_entries_sorted(es2);
    lemma_sorted_entries_permutes(es1);
    lemma_sorted_entries_permutes(es2);
    lemma_sorted_entries_distinct(es1);
    lemma_sorted_arrangement_unique(sorted_entries(es1), sorted_entries(es2));
}

/// The encodings of one or more well-formed entries read back as those
/// entries, in the order encoded.
proof fn lemma_parse_entries_from_bytes(es: Seq<EntryView>)
    requires
        es.len() > 0,
        forall|i: int| 0 <= i < es.len() ==> entry_wf(#[trigger] es[i]),
    ensures
        parsed_entries_from(entries_bytes(es)) == Ok::<Seq<EntryView>, ObjectError>(es),
        entries_bytes(es).len() >= 22,
    decreases es.len(),
{
    let e = es[0];
    let rest = es.drop_first();
    let payload = entries_bytes(es);
    let text = e.mode + seq![' ' as u8] + e.name;
    assert(entry_wf(e));
    assert forall|i: int| 0 <= i < rest.len() implies entry_wf(#[trigger] rest[i]) by {
        assert(rest[i] == es[i + 1]);
    }
    if rest.len() > 0 {
        lemma_parse_entries_from_bytes(rest);
    } else {
        assert(entries_bytes(rest) =~= Seq::<u8>::empty());
    }
    assert(payload =~= text + seq![0u8] + e.hash + entries_bytes(rest));
    assert forall|i: int| 0 <= i < text.len() implies text[i] != 0 by {
        if i < e.mode.len() {
            assert(text[i] == e.mode[i]);
        } else if i > e.mode.len() {
            assert(text[i] == e.name[i - e.mode.len() - 1]);
        }
    }
    lemma_first_index_of_unique(payload, 0, text.len() as int);
    assert(payload.take(text.len() as int) =~= text);
    assert forall|i: int| 0 <= i < e.mode.len() implies text[i] != ' ' as u8 by {
        assert(text[i] == e.mode[i]);
    }
    lemma_first_index_of_unique(text, ' ' as u8, e.mode.len() as int);
    assert(text.take(e.mode.len() as int) =~= e.mode);
    assert(text.skip(e.mode.len() as int + 1) =~= e.name);
    assert(payload.subrange(text.len() as int + 1, text.len() as int + 21) =~= e.hash);
    assert(payload.skip(text.len() as int + 21) =~= entries_bytes(rest));
    assert(seq![e] + rest =~= es);
    assert(seq![e] + Seq::<EntryView>::empty() =~= seq![e]);
}

/// Entries that can be read back are read back: the encodings of
/// well-formed entries parse to those entries, in the order encoded.
pub proof fn lemma_parse_entries_bytes(es: Seq<EntryView>)
    requires
        forall|i: int| 0 <= i < es.len() ==> entry_wf(#[trigger] es[i]),
    ensures
        parsed_entries(entries_bytes(es)) == Ok::<Seq<EntryView>, ObjectError>(es),
{
    if es.len() == 0 {
        assert(es =~= Seq::<EntryView>::empty());
    } else {
        lemma_parse_entries_from_bytes(es);
    }
}

/// A tree's payload reads back as its entries in order of name.
pub proof fn lemma_parse_tree_payload(es: Seq<EntryView>)
    requires
        forall|i: int| 0 <= i < es.len() ==> entry_wf(#[trigger] es[i]),
    ensures
        parsed_entries(tree_payload(es)) == Ok::<Seq<EntryView>, ObjectError>(sorted_entries(es)),
{
    broadcast use vstd::seq_lib::group_to_multiset_ensures;

    let sorted = sorted_entries(es);
    lemma_sorted_entries_permutes(es);
    assert forall|i: int| 0 <= i < sorted.len() implies entry_wf(#[trigger] sorted[i]) by {
        assert(sorted.contains(sorted[i]));
        assert(es.to_multiset().count(sorted[i]) > 0);
        assert(es.contains(sorted[i]));
    }
    lemma_parse_entries_bytes(sorted);
}

} // verus!
