use git_objects::tree::{parse_entries, sort_entries};
use git_objects::{Blob, GitHash, ObjectError, Tree, TreeEntry};

fn entry(mode: &[u8], name: &[u8], hash: GitHash) -> TreeEntry {
    TreeEntry { mode: mode.to_vec(), hash, name: name.to_vec() }
}

fn names(entries: &[TreeEntry]) -> Vec<Vec<u8>> {
    entries.iter().map(|e| e.name.clone()).collect()
}

fn digest_x() -> GitHash {
    Blob::from_contents(b"x").hash
}

fn empty_tree_digest() -> GitHash {
    GitHash::from_str("4b825dc642cb6eb9a060e54bf8d69288fbee4904").unwrap()
}

#[test]
fn empty_tree_has_known_digest() {
    let tree = Tree::from_entries(Vec::new());
    assert_eq!(tree.hash, empty_tree_digest());
    assert!(tree.entries.is_empty());
    assert_eq!(tree.contents(), b"tree 0\0".to_vec());
    assert_eq!(Tree::body_from_entries(&[]), Vec::<u8>::new());
}

#[test]
fn entry_is_mode_name_nul_and_raw_digest() {
    let hash = digest_x();
    let body = Tree::body_from_entries(&[entry(b"100644", b"a.txt", hash)]);
    let mut expected = b"100644 a.txt\0".to_vec();
    expected.extend_from_slice(&hash.hash);
    assert_eq!(body, expected);
    assert_eq!(body.len(), 13 + 20);
}

#[test]
fn contents_are_header_and_body() {
    let entries = vec![entry(b"100644", b"a.txt", digest_x())];
    let body = Tree::body_from_entries(&entries);
    let mut expected = b"tree 33\0".to_vec();
    expected.extend_from_slice(&body);
    assert_eq!(Tree::contents_from_entries(&entries), expected);
    let tree = Tree::from_entries(entries);
    assert_eq!(tree.contents(), expected);
    assert_eq!(tree.hash, GitHash::compute(&expected));
    assert_eq!(tree.hash.to_hex(), "9375a50d54bf5374615a3378349e298761a4b116");
}

#[test]
fn tree_of_two_entries_has_known_digest() {
    let tree = Tree::from_entries(vec![
        entry(b"40000", b"sub", empty_tree_digest()),
        entry(b"100644", b"a.txt", digest_x()),
    ]);
    assert_eq!(tree.hash.to_hex(), "b82156768bf012710817a9dbedc9d920bd5885bf");
    assert_eq!(names(&tree.entries), vec![b"a.txt".to_vec(), b"sub".to_vec()]);
}

#[test]
fn entries_are_put_in_order_of_name() {
    let h = digest_x();
    let sorted = sort_entries(vec![
        entry(b"1", b"b", h),
        entry(b"1", b"a", h),
        entry(b"1", b"ab", h),
        entry(b"1", b"B", h),
        entry(b"1", b"", h),
        entry(b"1", b"a.b", h),
    ]);
    assert_eq!(
        names(&sorted),
        vec![
            b"".to_vec(),
            b"B".to_vec(),
            b"a".to_vec(),
            b"a.b".to_vec(),
            b"ab".to_vec(),
            b"b".to_vec()
        ]
    );
}

#[test]
fn entries_of_one_name_keep_their_order() {
    let h = digest_x();
    let sorted = sort_entries(vec![
        entry(b"2", b"same", h),
        entry(b"0", b"z", h),
        entry(b"1", b"same", h),
        entry(b"3", b"same", h),
    ]);
    let modes: Vec<Vec<u8>> = sorted.iter().map(|e| e.mode.clone()).collect();
    assert_eq!(modes, vec![b"2".to_vec(), b"1".to_vec(), b"3".to_vec(), b"0".to_vec()]);
}

#[test]
fn order_of_insertion_does_not_change_digest() {
    let h1 = Blob::from_contents(b"1").hash;
    let h2 = Blob::from_contents(b"2").hash;
    let h3 = Blob::from_contents(b"3").hash;
    let make = |order: [usize; 3]| {
        let all = [(&b"one"[..], h1), (&b"two"[..], h2), (&b"three"[..], h3)];
        Tree::from_entries(order.iter().map(|&i| entry(b"100644", all[i].0, all[i].1)).collect())
    };
    let first = make([0, 1, 2]);
    for order in [[0, 2, 1], [1, 0, 2], [1, 2, 0], [2, 0, 1], [2, 1, 0]] {
        let other = make(order);
        assert_eq!(other.hash, first.hash);
        assert_eq!(other.entries, first.entries);
        assert_eq!(other.contents(), first.contents());
    }
}

#[test]
fn renaming_changes_name_and_tree_but_not_blob_digest() {
    let blob = Blob::from_contents(b"same content");
    let before = Tree::from_entries(vec![entry(b"100644", b"old", blob.hash)]);
    let after = Tree::from_entries(vec![entry(b"100644", b"new", blob.hash)]);
    assert_eq!(before.entries[0].hash, after.entries[0].hash);
    assert_ne!(before.entries[0].name, after.entries[0].name);
    assert_ne!(before.hash, after.hash);
}

#[test]
fn new_keeps_its_parts() {
    let hash = GitHash::new([3; 20]);
    let entries = vec![entry(b"1", b"b", hash), entry(b"1", b"a", hash)];
    let tree = Tree::new(hash, vec![entry(b"1", b"b", hash), entry(b"1", b"a", hash)]);
    assert_eq!(tree.hash, hash);
    assert_eq!(tree.entries, entries);
}

#[test]
fn contents_are_canonical_whatever_the_order_held() {
    let hash = GitHash::new([3; 20]);
    let tree = Tree::new(hash, vec![entry(b"1", b"b", hash), entry(b"1", b"a", hash)]);
    let sorted = Tree::new(hash, vec![entry(b"1", b"a", hash), entry(b"1", b"b", hash)]);
    assert_eq!(tree.contents(), sorted.contents());
    assert_eq!(&tree.contents()[..12], b"tree 48\x001 a\0");
}

#[test]
fn parse_reads_back_what_was_encoded() {
    let entries = vec![
        entry(b"100644", b"a.txt", digest_x()),
        entry(b"100644", b"name with spaces", GitHash::new([0; 20])),
        entry(b"40000", b"sub", empty_tree_digest()),
        entry(b"100755", b"tool", GitHash::new([b' '; 20])),
    ];
    let body = Tree::body_from_entries(&entries);
    assert_eq!(parse_entries(&body), Ok(entries));
}

#[test]
fn parse_takes_twenty_digest_bytes_whatever_they_are() {
    let mut raw = [0u8; 20];
    raw[0] = 0;
    raw[1] = b' ';
    raw[2] = b'\n';
    raw[19] = 0;
    let first = entry(b"100644", b"a", GitHash::new(raw));
    let second = entry(b"100644", b"b", GitHash::new([0; 20]));
    let body = Tree::body_from_entries(&[first, second]);
    let parsed = parse_entries(&body).unwrap();
    assert_eq!(parsed.len(), 2);
    assert_eq!(parsed[0].hash, GitHash::new(raw));
    assert_eq!(parsed[0].name, b"a".to_vec());
    assert_eq!(parsed[1].name, b"b".to_vec());
    assert_eq!(parsed[1].hash, GitHash::new([0; 20]));
}

#[test]
fn parse_of_nothing_is_no_entry() {
    assert_eq!(parse_entries(b""), Ok(Vec::new()));
}

#[test]
fn parse_stops_where_fewer_than_twenty_bytes_follow_a_digest() {
    let mut body = Tree::body_from_entries(&[entry(b"100644", b"a.txt", digest_x())]);
    body.extend_from_slice(b"0123456789012345678");
    assert_eq!(parse_entries(&body), Ok(vec![entry(b"100644", b"a.txt", digest_x())]));
    let mut body = Tree::body_from_entries(&[entry(b"100644", b"a.txt", digest_x())]);
    body.extend_from_slice(b"1 b\0");
    assert_eq!(parse_entries(&body), Ok(vec![entry(b"100644", b"a.txt", digest_x())]));
}

#[test]
fn parse_refuses_first_entry_without_its_digest() {
    assert_eq!(parse_entries(b"100644 a\0abc"), Err(ObjectError::TruncatedObject));
    assert_eq!(parse_entries(b"100644 a\0short"), Err(ObjectError::TruncatedObject));
    assert_eq!(parse_entries(b"100644 a\01234567890123456789"), Err(ObjectError::TruncatedObject));
    assert_eq!(parse_entries(b"x"), Err(ObjectError::TruncatedObject));
    assert_eq!(parse_entries(b"\0"), Err(ObjectError::TruncatedObject));
    assert_eq!(parse_entries(b"100644 a"), Err(ObjectError::TruncatedObject));
    assert_eq!(
        Tree::from_tree_file(b"tree 12\0100644 a\0abc"),
        Err(ObjectError::TruncatedObject)
    );
}

#[test]
fn parse_refuses_entry_without_its_digest() {
    let mut body = Tree::body_from_entries(&[entry(b"100644", b"a.txt", digest_x())]);
    body.extend_from_slice(b"100644 long-enough-name\0only-19-bytes-here!");
    assert_eq!(body.len(), 33 + 24 + 19);
    assert_eq!(parse_entries(&body), Err(ObjectError::TruncatedObject));
    assert_eq!(
        parse_entries(b"100644 a-name-without-terminator"),
        Err(ObjectError::TruncatedObject)
    );
}

#[test]
fn parse_refuses_entry_without_separator() {
    let mut body = b"100644a.txt\0".to_vec();
    body.extend_from_slice(&[1; 20]);
    assert_eq!(parse_entries(&body), Err(ObjectError::CorruptObject));
}

#[test]
fn parse_parts_text_at_first_space() {
    let mut body = b" \0".to_vec();
    body.extend_from_slice(&[1; 20]);
    assert_eq!(parse_entries(&body), Ok(vec![entry(b"", b"", GitHash::new([1; 20]))]));
    let mut body = b"a b c\0".to_vec();
    body.extend_from_slice(&[1; 20]);
    assert_eq!(parse_entries(&body), Ok(vec![entry(b"a", b"b c", GitHash::new([1; 20]))]));
}

#[test]
fn from_tree_file_reads_whole_encoding() {
    let entries = vec![
        entry(b"100644", b"a.txt", digest_x()),
        entry(b"40000", b"sub", empty_tree_digest()),
    ];
    let contents = Tree::contents_from_entries(&entries);
    let tree = Tree::from_tree_file(&contents).unwrap();
    assert_eq!(tree.entries, entries);
    assert_eq!(tree.hash, GitHash::compute(&contents));
    assert_eq!(tree.hash.to_hex(), "b82156768bf012710817a9dbedc9d920bd5885bf");
}

#[test]
fn from_tree_file_refuses_what_is_no_tree() {
    assert_eq!(Tree::from_tree_file(b"blob 3\0hi\n"), Err(ObjectError::CorruptObject));
    assert_eq!(Tree::from_tree_file(b"commit 0\0"), Err(ObjectError::CorruptObject));
    assert_eq!(Tree::from_tree_file(b"tree"), Err(ObjectError::MalformedHeader));
    assert_eq!(Tree::from_tree_file(b"twig 0\0"), Err(ObjectError::UnknownObjectKind));
    assert_eq!(Tree::from_tree_file(b"tree 40\0100644 a\0"), Err(ObjectError::TruncatedObject));
    assert_eq!(
        Tree::from_tree_file(b"tree 28\0100644 a\01234567890123456789"),
        Err(ObjectError::TruncatedObject)
    );
    assert_eq!(
        Tree::from_tree_file(b"tree 28\0100644a\012345678901234567890"),
        Err(ObjectError::CorruptObject)
    );
}

#[test]
fn from_tree_file_holds_to_the_length_announced() {
    let entries = vec![entry(b"100644", b"a.txt", digest_x())];
    let mut contents = Tree::contents_from_entries(&entries);
    contents.extend_from_slice(&Tree::body_from_entries(&entries));
    let tree = Tree::from_tree_file(&contents).unwrap();
    assert_eq!(tree.entries, entries);
}

#[test]
fn clone_keeps_an_entry() {
    let e = entry(b"100644", b"a.txt", digest_x());
    assert_eq!(e.clone(), e);
}
