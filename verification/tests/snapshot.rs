use git_objects::{Blob, DirNode, EncodedObject, GitHash, Tree};

fn file(name: &[u8], contents: &[u8]) -> DirNode {
    DirNode::File { name: name.to_vec(), contents: contents.to_vec() }
}

fn dir(name: &[u8], children: Vec<DirNode>) -> DirNode {
    DirNode::Dir { name: name.to_vec(), children }
}

fn find(haystack: &[u8], needle: &[u8]) -> Option<usize> {
    haystack.windows(needle.len()).position(|w| w == needle)
}

#[test]
fn snapshot_of_one_file_and_one_empty_directory() {
    let listing = vec![dir(b"sub", Vec::new()), file(b"a.txt", b"x")];
    let (tree, objects) = Tree::tree_from_directory(&listing);

    let blob = Blob::from_contents(b"x");
    let contents = tree.contents();
    let payload = &contents[8..];
    assert_eq!(&contents[..8], b"tree 63\0");
    let mut line = b"100644 a.txt\0".to_vec();
    line.extend_from_slice(&blob.hash.hash);
    assert_eq!(&payload[..33], &line[..]);
    assert_eq!(find(payload, b"a.txt"), Some(7));

    let empty = Tree::from_entries(Vec::new());
    assert_eq!(tree.entries.len(), 2);
    assert_eq!(tree.entries[0].name, b"a.txt".to_vec());
    assert_eq!(tree.entries[0].mode, b"100644".to_vec());
    assert_eq!(tree.entries[0].hash, blob.hash);
    assert_eq!(tree.entries[1].name, b"sub".to_vec());
    assert_eq!(tree.entries[1].mode, b"40000".to_vec());
    assert_eq!(tree.entries[1].hash, empty.hash);
    assert_eq!(tree.hash.to_hex(), "b82156768bf012710817a9dbedc9d920bd5885bf");

    assert_eq!(
        objects,
        vec![
            EncodedObject { hash: empty.hash, bytes: b"tree 0\0".to_vec() },
            EncodedObject { hash: blob.hash, bytes: b"blob 1\0x".to_vec() },
            EncodedObject { hash: tree.hash, bytes: contents },
        ]
    );
}

#[test]
fn snapshot_of_nothing_is_the_empty_tree() {
    let (tree, objects) = Tree::tree_from_directory(&Vec::new());
    assert_eq!(tree.hash.to_hex(), "4b825dc642cb6eb9a060e54bf8d69288fbee4904");
    assert_eq!(objects, vec![EncodedObject { hash: tree.hash, bytes: b"tree 0\0".to_vec() }]);
}

#[test]
fn snapshot_leaves_out_the_store() {
    let with_store = vec![
        file(b"a.txt", b"x"),
        dir(b".git", vec![file(b"HEAD", b"ref: refs/heads/master\n")]),
    ];
    let without = vec![file(b"a.txt", b"x")];
    let (tree, objects) = Tree::tree_from_directory(&with_store);
    let (plain, plain_objects) = Tree::tree_from_directory(&without);
    assert_eq!(tree, plain);
    assert_eq!(objects, plain_objects);
    assert_eq!(tree.entries.len(), 1);
    assert_eq!(tree.hash.to_hex(), "9375a50d54bf5374615a3378349e298761a4b116");

    let (tree, _) = Tree::tree_from_directory(&vec![file(b".git", b"gitdir: elsewhere\n")]);
    assert!(tree.entries.is_empty());
    let (tree, _) = Tree::tree_from_directory(&vec![file(b".gitignore", b"target\n")]);
    assert_eq!(tree.entries.len(), 1);
    let (tree, _) = Tree::tree_from_directory(&vec![dir(b"src", vec![dir(b".git", Vec::new())])]);
    assert_eq!(tree.entries[0].hash.to_hex(), "4b825dc642cb6eb9a060e54bf8d69288fbee4904");
}

#[test]
fn snapshot_twice_gives_one_digest() {
    let make = || {
        vec![
            file(b"b", b"2"),
            dir(b"d", vec![file(b"y", b"yy"), file(b"x", b"xx")]),
            file(b"a", b"1"),
        ]
    };
    let (first, first_objects) = Tree::tree_from_directory(&make());
    let (second, second_objects) = Tree::tree_from_directory(&make());
    assert_eq!(first.hash, second.hash);
    assert_eq!(first, second);
    assert_eq!(first_objects, second_objects);
}

#[test]
fn snapshot_does_not_depend_on_listing_order() {
    let (first, _) = Tree::tree_from_directory(&vec![
        file(b"b", b"2"),
        dir(b"d", vec![file(b"y", b"yy"), file(b"x", b"xx")]),
        file(b"a", b"1"),
    ]);
    let (second, _) = Tree::tree_from_directory(&vec![
        file(b"a", b"1"),
        file(b"b", b"2"),
        dir(b"d", vec![file(b"x", b"xx"), file(b"y", b"yy")]),
    ]);
    assert_eq!(first.hash, second.hash);
    assert_eq!(first.entries, second.entries);
    let names: Vec<&[u8]> = first.entries.iter().map(|e| &e.name[..]).collect();
    assert_eq!(names, vec![&b"a"[..], b"b", b"d"]);
}

#[test]
fn snapshot_brings_children_before_parents() {
    let listing = vec![dir(b"d", vec![dir(b"e", vec![file(b"f", b"deep")])]), file(b"a", b"1")];
    let (tree, objects) = Tree::tree_from_directory(&listing);
    let kinds: Vec<&[u8]> = objects.iter().map(|o| &o.bytes[..4]).collect();
    assert_eq!(kinds, vec![&b"blob"[..], b"tree", b"tree", b"blob", b"tree"]);
    assert_eq!(objects[0].bytes, b"blob 4\0deep".to_vec());
    assert_eq!(objects[3].bytes, b"blob 1\x001".to_vec());
    assert_eq!(objects.last().unwrap().hash, tree.hash);
    for object in &objects {
        assert_eq!(object.hash, GitHash::compute(&object.bytes));
    }
    let inner = Tree::from_tree_file(&objects[1].bytes).unwrap();
    assert_eq!(inner.entries[0].hash, objects[0].hash);
    let middle = Tree::from_tree_file(&objects[2].bytes).unwrap();
    assert_eq!(middle.entries[0].hash, objects[1].hash);
    assert_eq!(tree.entries[1].hash, objects[2].hash);
}

#[test]
fn identical_subtrees_have_one_digest() {
    let (tree, objects) = Tree::tree_from_directory(&vec![
        dir(b"one", vec![file(b"f", b"same")]),
        dir(b"two", vec![file(b"f", b"same")]),
    ]);
    assert_eq!(tree.entries[0].hash, tree.entries[1].hash);
    assert_eq!(objects[1], objects[3]);
}

#[test]
fn renaming_a_file_keeps_its_blob_digest() {
    let (before, _) = Tree::tree_from_directory(&vec![file(b"old.txt", b"content")]);
    let (after, _) = Tree::tree_from_directory(&vec![file(b"new.txt", b"content")]);
    assert_eq!(before.entries[0].name, b"old.txt".to_vec());
    assert_eq!(after.entries[0].name, b"new.txt".to_vec());
    assert_eq!(before.entries[0].hash, after.entries[0].hash);
    assert_ne!(before.hash, after.hash);
}

#[test]
fn encoded_object_goes_under_its_own_digest() {
    let object = EncodedObject::new(b"blob 3\0hi\n".to_vec());
    assert_eq!(object.hash.to_hex(), "45b983be36b73c0788dc9cbcb76cbb80fc7bb057");
    assert_eq!(object.bytes, b"blob 3\0hi\n".to_vec());
}

#[test]
fn snapshot_does_not_depend_on_order_at_any_level() {
    let (first, _) = Tree::tree_from_directory(&vec![
        dir(
            b"top",
            vec![
                file(b"b", b"2"),
                dir(b"deep", vec![file(b"z", b"26"), file(b"y", b"25"), dir(b"e", Vec::new())]),
                file(b"a", b"1"),
            ],
        ),
        file(b"readme", b"text"),
    ]);
    let (second, _) = Tree::tree_from_directory(&vec![
        file(b"readme", b"text"),
        dir(
            b"top",
            vec![
                dir(b"deep", vec![dir(b"e", Vec::new()), file(b"y", b"25"), file(b"z", b"26")]),
                file(b"a", b"1"),
                file(b"b", b"2"),
            ],
        ),
    ]);
    assert_eq!(first.hash, second.hash);
    assert_eq!(first.entries, second.entries);
}
