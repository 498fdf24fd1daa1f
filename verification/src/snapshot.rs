//! Snapshots of a directory: the tree of a directory listing, and every
//! object that the tree refers to.

use vstd::prelude::*;
use crate::codec::{encode_object, encoded_object, ObjectKind};
use crate::digest::{sha1_of, GitHash};
use crate::text::same_bytes;
use crate::tree::{
    distinct_names, lemma_sorted_entries_of_sorted, lemma_sorted_entries_sorted,
    lemma_tree_order_free, sorted_entries, tree_contents, EntryView, Tree, TreeEntry,
};

verus! {

/// A file or a directory as read from disk.
#[derive(Debug, PartialEq, Eq)]
pub enum DirNode {
    File { name: Vec<u8>, contents: Vec<u8> },
    Dir { name: Vec<u8>, children: Vec<DirNode> },
}

/// What a node holds.
pub enum NodeView {
    File { name: Seq<u8>, contents: Seq<u8> },
    Dir { name: Seq<u8>, children: Seq<NodeView> },
}

/// What a node holds.
pub open spec fn node_view(node: DirNode) -> NodeView
    decreases node, 0nat,
{
    match node {
        DirNode::File { name, contents } => NodeView::File { name: name@, contents: contents@ },
        DirNode::Dir { name, children } => NodeView::Dir {
            name: name@,
            children: listing_view(children@),
        },
    }
}

/// What a sequence of nodes holds.
pub open spec fn listing_view(children: Seq<DirNode>) -> Seq<NodeView>
    decreases children, 1nat,
{
    if children.len() == 0 {
        Seq::empty()
    } else {
        listing_view(children.drop_last()).push(node_view(children.last()))
    }
}

impl View for DirNode {
    type V = NodeView;

    open spec fn view(&self) -> NodeView {
        node_view(*self)
    }
}

/// The name of a node.
pub open spec fn node_name(n: NodeView) -> Seq<u8> {
    match n {
        NodeView::File { name, .. } => name,
        NodeView::Dir { name, .. } => name,
    }
}

/// The name of the store's own directory, which no snapshot includes.
pub open spec fn store_dir_name() -> Seq<u8> {
    seq!['.' as u8, 'g' as u8, 'i' as u8, 't' as u8]
}

/// The mode of an entry for a file.
pub open spec fn file_mode() -> Seq<u8> {
    seq!['1' as u8, '0' as u8, '0' as u8, '6' as u8, '4' as u8, '4' as u8]
}

/// The mode of an entry for a directory.
pub open spec fn dir_mode() -> Seq<u8> {
    seq!['4' as u8, '0' as u8, '0' as u8, '0' as u8, '0' as u8]
}

/// The entry that stands for a node in its parent's tree: a file by the
/// digest of its blob, a directory by the digest of its own tree.
pub open spec fn node_entry(n: NodeView) -> EntryView
    decreases n, 0nat,
{
    match n {
        NodeView::File { name, contents } => EntryView {
            mode: file_mode(),
            hash: sha1_of(encoded_object(ObjectKind::Blob, contents)),
            name,
        },
        NodeView::Dir { name, children } => EntryView {
            mode: dir_mode(),
            hash: sha1_of(tree_contents(listing_entries(children))),
            name,
        },
    }
}

/// The entries of a directory with these children, in the order listed:
/// one for each child but the store's own directory.
pub open spec fn listing_entries(children: Seq<NodeView>) -> Seq<EntryView>
    decreases children, 1nat,
{
    if children.len() == 0 {
        Seq::empty()
    } else if node_name(children.last()) == store_dir_name() {
        listing_entries(children.drop_last())
    } else {
        listing_entries(children.drop_last()).push(node_entry(children.last()))
    }
}

/// An object ready to be stored: its canonical encoding, and the digest
/// under which it goes.
#[derive(Debug, PartialEq, Eq)]
pub struct EncodedObject {
    pub hash: GitHash,
    pub bytes: Vec<u8>,
}

/// What an encoded object holds.
pub struct ObjectView {
    pub hash: Seq<u8>,
    pub bytes: Seq<u8>,
}

impl View for EncodedObject {
    type V = ObjectView;

    open spec fn view(&self) -> ObjectView {
        ObjectView { hash: self.hash@, bytes: self.bytes@ }
    }
}

impl DeepView for EncodedObject {
    type V = ObjectView;

    open spec fn deep_view(&self) -> ObjectView {
        self@
    }
}

/// The stored form of an encoding: the bytes under their own digest.
pub open spec fn object_of(bytes: Seq<u8>) -> ObjectView {
    ObjectView { hash: sha1_of(bytes), bytes }
}

/// The objects that a node brings: a file its blob; a directory all that
/// its snapshot brings.
pub open spec fn node_objects(n: NodeView) -> Seq<ObjectView>
    decreases n, 0nat,
{
    match n {
        NodeView::File { name, contents } => seq![
            object_of(encoded_object(ObjectKind::Blob, contents)),
        ],
        NodeView::Dir { name, children } => snapshot_objects(children),
    }
}

/// The objects that these children bring, child after child as listed,
/// the store's own directory left out.
pub open spec fn listing_objects(children: Seq<NodeView>) -> Seq<ObjectView>
    decreases children, 1nat,
{
    if children.len() == 0 {
        Seq::empty()
    } else if node_name(children.last()) == store_dir_name() {
        listing_objects(children.drop_last())
    } else {
        listing_objects(children.drop_last()) + node_objects(children.last())
    }
}

/// Every object of the snapshot of a directory with these children:
/// those of the children first, the directory's own tree last, so that
/// each object comes after all that it refers to.
pub open spec fn snapshot_objects(children: Seq<NodeView>) -> Seq<ObjectView>
    decreases children, 2nat,
{
    listing_objects(children).push(object_of(tree_contents(listing_entries(children))))
}

/// The view of a listing has a view for each node, in order.
pub proof fn lemma_listing_view(children: Seq<DirNode>)
    ensures
        listing_view(children).len() == children.len(),
        forall|i: int|
            0 <= i < children.len() ==> listing_view(children)[i] == #[trigger] children[i]@,
    decreases children.len(),
{
    if children.len() > 0 {
        let front = children.drop_last();
        lemma_listing_view(front);
        assert forall|i: int| 0 <= i < children.len() implies listing_view(children)[i]
            == #[trigger] children[i]@ by {
            if i < front.len() {
                assert(front[i] == children[i]);
            }
        }
    }
}

impl EncodedObject {
    /// The object with this canonical encoding, under its digest.
    pub fn new(bytes: Vec<u8>) -> (res: Self)
        ensures
            res@ == object_of(bytes@),
    {
        Self { hash: GitHash::compute(bytes.as_slice()), bytes }
    }
}

/// Whether `name` is the name of the store's own directory.
fn is_store_dir(name: &[u8]) -> (res: bool)
    ensures
        res == (name@ == store_dir_name()),
{
    let store: Vec<u8> = vec!['.' as u8, 'g' as u8, 'i' as u8, 't' as u8];
    same_bytes(name, store.as_slice())
}

/// The mode of an entry for a file.
fn file_mode_bytes() -> (res: Vec<u8>)
    ensures
        res@ == file_mode(),
{
    vec!['1' as u8, '0' as u8, '0' as u8, '6' as u8, '4' as u8, '4' as u8]
}

/// The mode of an entry for a directory.
fn dir_mode_bytes() -> (res: Vec<u8>)
    ensures
        res@ == dir_mode(),
{
    vec!['4' as u8, '0' as u8, '0' as u8, '0' as u8, '0' as u8]
}

/// Builds the tree of a directory with these children, bottom-up, and
/// appends every object of the snapshot to `objects`.
fn snapshot_into(children: &Vec<DirNode>, objects: &mut Vec<EncodedObject>) -> (tree: Tree)
    ensures
        tree.entries.deep_view() == sorted_entries(listing_entries(listing_view(children@))),
        tree.hash@ == sha1_of(tree_contents(listing_entries(listing_view(children@)))),
        tree.wf(),
        final(objects).deep_view() == old(objects).deep_view() + snapshot_objects(
            listing_view(children@),
        ),
    decreases children,
{
    let ghost nodes = listing_view(children@);
    let ghost before = old(objects).deep_view();
    proof {
        lemma_listing_view(children@);
    }
    let mut entries: Vec<TreeEntry> = Vec::new();
    let mut i: usize = 0;
    assert(nodes.take(0) =~= Seq::<NodeView>::empty());
    assert(entries.deep_view() =~= Seq::<EntryView>::empty());
    assert(objects.deep_view() =~= before + Seq::<ObjectView>::empty());
    while i < children.len()
        invariant
            i <= children@.len(),
            nodes == listing_view(children@),
            nodes.len() == children@.len(),
            forall|k: int| 0 <= k < children@.len() ==> nodes[k] == #[trigger] children@[k]@,
            entries.deep_view() == listing_entries(nodes.take(i as int)),
            objects.deep_view() == before + listing_objects(nodes.take(i as int)),
        decreases children@.len() - i,
    {
        let ghost done = nodes.take(i as int);
        let ghost es = entries.deep_view();
        let ghost os = objects.deep_view();
        let ghost node = children@[i as int]@;
        proof {
            assert(nodes.take(i + 1).drop_last() =~= done);
            assert(nodes.take(i + 1).last() == node);
            assert(listing_entries(nodes.take(i + 1)) == if node_name(node) == store_dir_name() {
                listing_entries(done)
            } else {
                listing_entries(done).push(node_entry(node))
            });
            assert(listing_objects(nodes.take(i + 1)) == if node_name(node) == store_dir_name() {
                listing_objects(done)
            } else {
                listing_objects(done) + node_objects(node)
            });
        }
        match &children[i] {
            DirNode::File { name, contents } => {
                if !is_store_dir(name.as_slice()) {
                    let object = EncodedObject::new(
                        encode_object(ObjectKind::Blob, contents.as_slice()),
                    );
                    let copy = name.clone();
                    assert(copy@ =~= name@);
                    let entry = TreeEntry {
                        mode: file_mode_bytes(),
                        hash: object.hash,
                        name: copy,
                    };
                    assert(entry@ == node_entry(node));
                    entries.push(entry);
                    assert(entries.deep_view() =~= es.push(entry@));
                    objects.push(object);
                    assert(objects.deep_view() =~= os.push(object@));
                    assert(node_objects(node) =~= seq![object@]);
                    assert(objects.deep_view() =~= before + (listing_objects(done) + node_objects(
                        node,
                    )));
                }
            },
            DirNode::Dir { name, children: inner } => {
                if !is_store_dir(name.as_slice()) {
                    let sub = snapshot_into(inner, objects);
                    let copy = name.clone();
                    assert(copy@ =~= name@);
                    let entry = TreeEntry { mode: dir_mode_bytes(), hash: sub.hash, name: copy };
                    assert(node->Dir_children == listing_view(inner@));
                    assert(entry@ == node_entry(node));
                    entries.push(entry);
                    assert(entries.deep_view() =~= es.push(entry@));
                    assert(node_objects(node) == snapshot_objects(listing_view(inner@)));
                    assert(objects.deep_view() =~= before + (listing_objects(done) + node_objects(
                        node,
                    )));
                }
            },
        }
        i += 1;
    }
    assert(nodes.take(children@.len() as int) =~= nodes);
    let ghost listed = listing_entries(nodes);
    let ghost os = objects.deep_view();
    let tree = Tree::from_entries(entries);
    let bytes = tree.contents();
    proof {
        lemma_sorted_entries_sorted(listed);
        lemma_sorted_entries_of_sorted(sorted_entries(listed));
    }
    let object = EncodedObject { hash: tree.hash, bytes };
    objects.push(object);
    assert(objects.deep_view() =~= os.push(object@));
    tree
}

impl Tree {
    /// The tree of a directory with these children, whatever the order in
    /// which they were listed, and every object of the snapshot: blobs and
    /// trees of the levels below, and last the tree itself.
    pub fn tree_from_directory(children: &Vec<DirNode>) -> (res: (Self, Vec<EncodedObject>))
        ensures
            res.0.entries.deep_view() == sorted_entries(listing_entries(listing_view(children@))),
            res.0.hash@ == sha1_of(tree_contents(listing_entries(listing_view(children@)))),
            res.0.wf(),
            res.1.deep_view() == snapshot_objects(listing_view(children@)),
    {
        let mut objects: Vec<EncodedObject> = Vec::new();
        assert(objects.deep_view() =~= Seq::<ObjectView>::empty());
        let tree = snapshot_into(children, &mut objects);
        assert(objects.deep_view() =~= snapshot_objects(listing_view(children@)));
        (tree, objects)
    }
}

/// Whether no two of these nodes have one name.
pub open spec fn distinct_node_names(children: Seq<NodeView>) -> bool {
    forall|i: int, j: int|
        0 <= i < j < children.len() ==> node_name(#[trigger] children[i]) != node_name(
            #[trigger] children[j],
        )
}

/// A file's entry carries the file's name, and a digest that depends on
/// the content alone: under another name the same content has the same
/// digest.
pub proof fn lemma_rename_keeps_digest(name: Seq<u8>, other: Seq<u8>, contents: Seq<u8>)
    ensures
        node_entry(NodeView::File { name, contents }).name == name,
        node_entry(NodeView::File { name: other, contents }).name == other,
        node_entry(NodeView::File { name, contents }).hash == node_entry(
            NodeView::File { name: other, contents },
        ).hash,
{
}

/// Each entry of a listing has the name of one of the nodes listed.
proof fn lemma_listing_entries_names(children: Seq<NodeView>)
    ensures
        forall|i: int|
            0 <= i < listing_entries(children).len() ==> exists|k: int|
                0 <= k < children.len() && node_name(#[trigger] children[k]) == (
                #[trigger] listing_entries(children)[i]).name,
    decreases children.len(),
{
    if children.len() > 0 {
        let front = children.drop_last();
        let last = children.last();
        lemma_listing_entries_names(front);
        assert forall|i: int| 0 <= i < listing_entries(children).len() implies exists|k: int|
            0 <= k < children.len() && node_name(#[trigger] children[k]) == (
            #[trigger] listing_entries(children)[i]).name by {
            if i < listing_entries(front).len() {
                assert(listing_entries(children)[i] == listing_entries(front)[i]);
                let k = choose|k: int|
                    0 <= k < front.len() && node_name(#[trigger] front[k]) == listing_entries(
                        front,
                    )[i].name;
                assert(children[k] == front[k]);
            } else {
                assert(listing_entries(children)[i] == node_entry(last));
                assert(children[children.len() - 1] == last);
            }
        }
    }
}

/// Nodes of distinct names give entries of distinct names.
proof fn lemma_listing_entries_distinct(children: Seq<NodeView>)
    requires
        distinct_node_names(children),
    ensures
        distinct_names(listing_entries(children)),
    decreases children.len(),
{
    if children.len() > 0 {
        let front = children.drop_last();
        let last = children.last();
        assert forall|i: int, j: int| 0 <= i < j < front.len() implies node_name(
            #[trigger] front[i],
        ) != node_name(#[trigger] front[j]) by {
            assert(front[i] == children[i] && front[j] == children[j]);
        }
        lemma_listing_entries_distinct(front);
        lemma_listing_entries_names(front);
        let es = listing_entries(children);
        let fs = listing_entries(front);
        assert forall|i: int, j: int| 0 <= i < j < es.len() implies (#[trigger] es[i]).name != (
        #[trigger] es[j]).name by {
            if j < fs.len() {
                assert(es[i] == fs[i] && es[j] == fs[j]);
            } else {
                assert(es[i] == fs[i]);
                assert(es[j] == node_entry(last));
                assert(node_entry(last).name == node_name(last));
                let k = choose|k: int|
                    0 <= k < front.len() && node_name(#[trigger] front[k]) == fs[i].name;
                assert(children[k] == front[k]);
                assert(children[children.len() - 1] == last);
                assert(node_name(children[k]) != node_name(children[children.len() - 1]));
            }
        }
    }
}

/// Taking one node out of a listing takes its entry out of the entries.
proof fn lemma_listing_entries_remove(children: Seq<NodeView>, k: int)
    requires
        0 <= k < children.len(),
    ensures
        listing_entries(children).to_multiset() == if node_name(children[k]) == store_dir_name() {
            listing_entries(children.remove(k)).to_multiset()
        } else {
            listing_entries(children.remove(k)).to_multiset().insert(node_entry(children[k]))
        },
    decreases children.len(),
{
    broadcast use vstd::seq_lib::group_to_multiset_ensures;

    let front = children.drop_last();
    let last = children.last();
    if k == children.len() - 1 {
        assert(children.remove(k) =~= front);
    } else {
        let cut = children.remove(k);
        assert(cut.drop_last() =~= front.remove(k));
        assert(cut.last() == last);
        assert(front[k] == children[k]);
        lemma_listing_entries_remove(front, k);
        let base = listing_entries(front.remove(k)).to_multiset();
        if node_name(last) != store_dir_name() && node_name(children[k]) != store_dir_name() {
            assert(base.insert(node_entry(children[k])).insert(node_entry(last)) =~= base.insert(
                node_entry(last),
            ).insert(node_entry(children[k])));
        }
    }
}

/// The same nodes in another order give the same entries in another order.
proof fn lemma_listing_entries_permutes(c1: Seq<NodeView>, c2: Seq<NodeView>)
    requires
        c1.to_multiset() == c2.to_multiset(),
    ensures
        listing_entries(c1).to_multiset() == listing_entries(c2).to_multiset(),
    decreases c1.len(),
{
    broadcast use vstd::seq_lib::group_to_multiset_ensures;

    vstd::seq_lib::to_multiset_len(c1);
    vstd::seq_lib::to_multiset_len(c2);
    if c1.len() == 0 {
        assert(c1 =~= c2);
    } else {
        let last = c1.last();
        let front = c1.drop_last();
        assert(c1.contains(last));
        assert(c2.to_multiset().count(last) > 0);
        assert(c2.contains(last));
        let k = choose|k: int| 0 <= k < c2.len() && c2[k] == last;
        assert(front =~= c1.remove(c1.len() - 1));
        assert(front.to_multiset() =~= c1.to_multiset().remove(last));
        assert(c2.remove(k).to_multiset() =~= c2.to_multiset().remove(last));
        lemma_listing_entries_permutes(front, c2.remove(k));
        lemma_listing_entries_remove(c2, k);
    }
}

/// The order in which a directory's children are listed does not matter
/// to its snapshot: where no two children have one name, the same children
/// in any order give one tree, with one digest.
pub proof fn lemma_snapshot_order_free(c1: Seq<NodeView>, c2: Seq<NodeView>)
    requires
        distinct_node_names(c1),
        c1.to_multiset() == c2.to_multiset(),
    ensures
        sorted_entries(listing_entries(c1)) == sorted_entries(listing_entries(c2)),
        sha1_of(tree_contents(listing_entries(c1))) == sha1_of(
            tree_contents(listing_entries(c2)),
        ),
{
    lemma_listing_entries_distinct(c1);
    lemma_listing_entries_permutes(c1, c2);
    lemma_tree_order_free(listing_entries(c1), listing_entries(c2));
}

/// Whether `b` lists the nodes of `a` in some order, each directory among
/// them with its own children in some order, and so on below: the last
/// node of `a` stands somewhere in `b`, and without the two the rest of `b`
/// lists the rest of `a` in the same way.
pub open spec fn same_listing(a: Seq<NodeView>, b: Seq<NodeView>) -> bool
    decreases a, 1nat,
{
    if a.len() == 0 {
        b.len() == 0
    } else {
        exists|k: int|
            0 <= k < b.len() && same_node(a.last(), #[trigger] b[k]) && same_listing(
                a.drop_last(),
                b.remove(k),
            )
    }
}

/// Whether `y` is the node `x` but for the order of what directories list:
/// the same file, or a directory of the same name whose children are
/// those of `x` in some order.
pub open spec fn same_node(x: NodeView, y: NodeView) -> bool
    decreases x, 0nat,
{
    match x {
        NodeView::File { .. } => y == x,
        NodeView::Dir { name, children } => y is Dir && y->Dir_name == name && same_listing(
            children,
            y->Dir_children,
        ),
    }
}

/// Whether no two of these nodes have one name, nor two children of any
/// directory among them or below.
pub open spec fn distinct_throughout(children: Seq<NodeView>) -> bool
    decreases children, 1nat,
{
    if children.len() == 0 {
        true
    } else {
        &&& distinct_throughout(children.drop_last())
        &&& forall|i: int|
            0 <= i < children.len() - 1 ==> node_name(#[trigger] children[i]) != node_name(
                children.last(),
            )
        &&& node_distinct(children.last())
    }
}

/// Whether no two children of this directory, or of any directory below
/// it, have one name; true of a file.
pub open spec fn node_distinct(n: NodeView) -> bool
    decreases n, 0nat,
{
    match n {
        NodeView::File { .. } => true,
        NodeView::Dir { children, .. } => distinct_throughout(children),
    }
}

/// A node is the same node as itself.
pub proof fn lemma_same_node_reflexive(x: NodeView)
    ensures
        same_node(x, x),
    decreases x, 0nat,
{
    match x {
        NodeView::File { .. } => {},
        NodeView::Dir { name, children } => {
            lemma_same_listing_reflexive(children);
        },
    }
}

/// A listing lists its own nodes.
pub proof fn lemma_same_listing_reflexive(a: Seq<NodeView>)
    ensures
        same_listing(a, a),
    decreases a, 1nat,
{
    if a.len() > 0 {
        let k = a.len() - 1;
        lemma_same_node_reflexive(a.last());
        lemma_same_listing_reflexive(a.drop_last());
        assert(a.remove(k) =~= a.drop_last());
        assert(same_node(a.last(), a[k]));
    }
}

/// The same nodes in another order are the same listing.
pub proof fn lemma_reordered_same_listing(a: Seq<NodeView>, b: Seq<NodeView>)
    requires
        a.to_multiset() == b.to_multiset(),
    ensures
        same_listing(a, b),
    decreases a.len(),
{
    broadcast use vstd::seq_lib::group_to_multiset_ensures;

    vstd::seq_lib::to_multiset_len(a);
    vstd::seq_lib::to_multiset_len(b);
    if a.len() > 0 {
        let last = a.last();
        let front = a.drop_last();
        assert(a.contains(last));
        assert(b.to_multiset().count(last) > 0);
        assert(b.contains(last));
        let k = choose|k: int| 0 <= k < b.len() && b[k] == last;
        assert(front =~= a.remove(a.len() - 1));
        assert(front.to_multiset() =~= a.to_multiset().remove(last));
        assert(b.remove(k).to_multiset() =~= b.to_multiset().remove(last));
        lemma_reordered_same_listing(front, b.remove(k));
        lemma_same_node_reflexive(last);
        assert(same_node(a.last(), b[k]));
    }
}

/// Names that are distinct throughout are distinct at the top.
proof fn lemma_distinct_throughout_top(children: Seq<NodeView>)
    requires
        distinct_throughout(children),
    ensures
        distinct_node_names(children),
    decreases children.len(),
{
    if children.len() > 0 {
        let front = children.drop_last();
        lemma_distinct_throughout_top(front);
        assert forall|i: int, j: int| 0 <= i < j < children.len() implies node_name(
            #[trigger] children[i],
        ) != node_name(#[trigger] children[j]) by {
            if j < children.len() - 1 {
                assert(front[i] == children[i] && front[j] == children[j]);
            }
        }
    }
}

/// A node and the same node with directories listed in another order
/// stand for one entry: the name, the mode and the digest are the same.
proof fn lemma_same_node_entry(x: NodeView, y: NodeView)
    requires
        same_node(x, y),
        node_distinct(x),
    ensures
        node_entry(x) == node_entry(y),
        node_name(x) == node_name(y),
    decreases x, 0nat,
{
    match x {
        NodeView::File { .. } => {},
        NodeView::Dir { name, children } => {
            let others = y->Dir_children;
            lemma_same_listing_entries(children, others);
            lemma_distinct_throughout_top(children);
            lemma_listing_entries_distinct(children);
            lemma_tree_order_free(listing_entries(children), listing_entries(others));
        },
    }
}

/// The same nodes, listed in another order at any level, give the same
/// entries in another order.
proof fn lemma_same_listing_entries(a: Seq<NodeView>, b: Seq<NodeView>)
    requires
        same_listing(a, b),
        distinct_throughout(a),
    ensures
        listing_entries(a).to_multiset() == listing_entries(b).to_multiset(),
    decreases a, 1nat,
{
    broadcast use vstd::seq_lib::group_to_multiset_ensures;

    if a.len() == 0 {
        assert(a =~= b);
    } else {
        let k = choose|k: int|
            0 <= k < b.len() && same_node(a.last(), #[trigger] b[k]) && same_listing(
                a.drop_last(),
                b.remove(k),
            );
        lemma_same_node_entry(a.last(), b[k]);
        lemma_same_listing_entries(a.drop_last(), b.remove(k));
        lemma_listing_entries_remove(b, k);
        let front = listing_entries(a.drop_last());
        assert(front.push(node_entry(a.last())).to_multiset() =~= front.to_multiset().insert(
            node_entry(a.last()),
        ));
    }
}

/// The order in which directories are listed does not matter to a
/// snapshot, at any level: where no directory has two children of one
/// name, the same files and directories give one tree, with one digest,
/// however each directory lists its children.
pub proof fn lemma_snapshot_order_free_throughout(c1: Seq<NodeView>, c2: Seq<NodeView>)
    requires
        same_listing(c1, c2),
        distinct_throughout(c1),
    ensures
        sorted_entries(listing_entries(c1)) == sorted_entries(listing_entries(c2)),
        sha1_of(tree_contents(listing_entries(c1))) == sha1_of(
            tree_contents(listing_entries(c2)),
        ),
{
    lemma_same_listing_entries(c1, c2);
    lemma_distinct_throughout_top(c1);
    lemma_listing_entries_distinct(c1);
    lemma_tree_order_free(listing_entries(c1), listing_entries(c2));
}

} // verus!
