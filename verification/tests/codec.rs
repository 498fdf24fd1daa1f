use git_objects::codec::{header_bytes, read_length};
use git_objects::text::{lex_le_bytes, push_decimal, same_bytes, split_line, strip_prefix};
use git_objects::{decode_object, encode_object, Blob, GitHash, ObjectError, ObjectKind};

#[test]
fn blob_encoding_is_header_then_content() {
    assert_eq!(encode_object(ObjectKind::Blob, b"hi\n"), b"blob 3\0hi\n".to_vec());
}

#[test]
fn empty_payload_has_length_zero() {
    assert_eq!(encode_object(ObjectKind::Tree, b""), b"tree 0\0".to_vec());
    assert_eq!(encode_object(ObjectKind::Commit, b""), b"commit 0\0".to_vec());
}

#[test]
fn header_length_is_decimal() {
    assert_eq!(header_bytes(ObjectKind::Blob, 0), b"blob 0\0".to_vec());
    assert_eq!(header_bytes(ObjectKind::Tree, 10), b"tree 10\0".to_vec());
    assert_eq!(header_bytes(ObjectKind::Commit, 1234567), b"commit 1234567\0".to_vec());
    let payload = vec![7u8; 1000];
    let encoded = encode_object(ObjectKind::Blob, &payload);
    assert_eq!(&encoded[..10], b"blob 1000\0");
    assert_eq!(&encoded[10..], &payload[..]);
}

#[test]
fn push_decimal_writes_digits() {
    let mut out = b"n=".to_vec();
    push_decimal(&mut out, 0);
    push_decimal(&mut out, 9);
    push_decimal(&mut out, 10);
    push_decimal(&mut out, 18446744073709551615);
    assert_eq!(out, b"n=091018446744073709551615".to_vec());
}

#[test]
fn decode_gives_back_kind_and_payload() {
    let payloads: [&[u8]; 5] = [b"", b"hi\n", b"\0\0\0", b"blob 3\0hi\n", b" 12\0 x"];
    for kind in [ObjectKind::Blob, ObjectKind::Tree, ObjectKind::Commit] {
        for payload in payloads {
            let encoded = encode_object(kind, payload);
            assert_eq!(decode_object(&encoded), Ok((kind, payload)));
        }
    }
}

#[test]
fn decode_gives_back_every_byte_value() {
    let payload: Vec<u8> = (0..=255u8).collect();
    let encoded = encode_object(ObjectKind::Blob, &payload);
    assert_eq!(decode_object(&encoded), Ok((ObjectKind::Blob, &payload[..])));
}

#[test]
fn decode_refuses_missing_terminator() {
    assert_eq!(decode_object(b""), Err(ObjectError::MalformedHeader));
    assert_eq!(decode_object(b"blob 3"), Err(ObjectError::MalformedHeader));
    assert_eq!(decode_object(b"blob 3 hi\n"), Err(ObjectError::MalformedHeader));
}

#[test]
fn decode_refuses_missing_separator() {
    assert_eq!(decode_object(b"blob\0hi\n"), Err(ObjectError::MalformedHeader));
    assert_eq!(decode_object(b"\0"), Err(ObjectError::MalformedHeader));
}

#[test]
fn decode_refuses_bad_length() {
    assert_eq!(decode_object(b"blob \0"), Err(ObjectError::MalformedHeader));
    assert_eq!(decode_object(b"blob x\0hi\n"), Err(ObjectError::MalformedHeader));
    assert_eq!(decode_object(b"blob -1\0hi\n"), Err(ObjectError::MalformedHeader));
    assert_eq!(decode_object(b"blob 3 \0hi\n"), Err(ObjectError::MalformedHeader));
    assert_eq!(decode_object(b"blob  3\0hi\n"), Err(ObjectError::MalformedHeader));
    assert_eq!(decode_object(b"blob 3x\0hi\n"), Err(ObjectError::MalformedHeader));
    assert_eq!(decode_object(b"blob +\0hi\n"), Err(ObjectError::MalformedHeader));
    assert_eq!(decode_object(b"blob ++3\0hi\n"), Err(ObjectError::MalformedHeader));
}

#[test]
fn decode_accepts_plus_sign_and_leading_zeros() {
    assert_eq!(decode_object(b"blob +3\0hi\n"), Ok((ObjectKind::Blob, &b"hi\n"[..])));
    assert_eq!(decode_object(b"blob 003\0hi\n"), Ok((ObjectKind::Blob, &b"hi\n"[..])));
}

#[test]
fn decode_refuses_unknown_kind() {
    assert_eq!(decode_object(b"blub 3\0hi\n"), Err(ObjectError::UnknownObjectKind));
    assert_eq!(decode_object(b"Blob 3\0hi\n"), Err(ObjectError::UnknownObjectKind));
    assert_eq!(decode_object(b" 3\0hi\n"), Err(ObjectError::UnknownObjectKind));
    assert_eq!(decode_object(b"tag 3\0hi\n"), Err(ObjectError::UnknownObjectKind));
    assert_eq!(decode_object(b"commits 0\0"), Err(ObjectError::UnknownObjectKind));
}

#[test]
fn decode_refuses_truncated_payload() {
    assert_eq!(decode_object(b"blob 4\0hi\n"), Err(ObjectError::TruncatedObject));
    assert_eq!(decode_object(b"tree 1\0"), Err(ObjectError::TruncatedObject));
    assert_eq!(
        decode_object(b"blob 99999999999999999999999999999999\0hi\n"),
        Err(ObjectError::TruncatedObject)
    );
}

#[test]
fn decode_checks_header_then_kind_then_length() {
    assert_eq!(decode_object(b"blub x\0"), Err(ObjectError::MalformedHeader));
    assert_eq!(decode_object(b"blub 9\0"), Err(ObjectError::UnknownObjectKind));
    assert_eq!(
        decode_object(b"blub 99999999999999999999999999999999\0"),
        Err(ObjectError::UnknownObjectKind)
    );
}

#[test]
fn decode_leaves_out_bytes_after_the_payload() {
    assert_eq!(decode_object(b"blob 2\0hi\n"), Ok((ObjectKind::Blob, &b"hi"[..])));
    assert_eq!(decode_object(b"blob 0\0hi\n"), Ok((ObjectKind::Blob, &b""[..])));
}

#[test]
fn read_length_holds_against_what_is_there() {
    assert_eq!(read_length(b"12", 12), Ok(12));
    assert_eq!(read_length(b"12", 11), Err(ObjectError::TruncatedObject));
    assert_eq!(read_length(b"0", 0), Ok(0));
    assert_eq!(read_length(b"", 5), Err(ObjectError::MalformedHeader));
    assert_eq!(read_length(b"1a", 0), Err(ObjectError::MalformedHeader));
    assert_eq!(read_length(b"18446744073709551616", usize::MAX), Err(ObjectError::TruncatedObject));
}

#[test]
fn blob_from_contents_carries_digest_of_encoding() {
    let blob = Blob::from_contents(b"hi\n");
    assert_eq!(blob.hash.to_hex(), "45b983be36b73c0788dc9cbcb76cbb80fc7bb057");
    assert_eq!(blob.length, 3);
    assert_eq!(blob.contents, b"hi\n".to_vec());
    assert_eq!(blob.header(), b"blob 3\0".to_vec());
    assert_eq!(blob.as_bytes(), b"blob 3\0hi\n".to_vec());
    assert_eq!(GitHash::compute(&blob.as_bytes()), blob.hash);
}

#[test]
fn blob_new_keeps_its_parts() {
    let hash = GitHash::new([9; 20]);
    let blob = Blob::new(hash, 5, b"hi".to_vec());
    assert_eq!(blob.hash, hash);
    assert_eq!(blob.length, 5);
    assert_eq!(blob.contents, b"hi".to_vec());
    assert_eq!(blob.header(), b"blob 5\0".to_vec());
    assert_eq!(blob.as_bytes(), b"blob 5\0hi".to_vec());
}

#[test]
fn blob_digest_does_not_depend_on_a_name() {
    assert_eq!(Blob::from_contents(b"x").hash, Blob::from_contents(b"x").hash);
    assert_ne!(Blob::from_contents(b"x").hash, Blob::from_contents(b"y").hash);
    assert_eq!(Blob::from_contents(b"").hash.to_hex(), "e69de29bb2d1d6434b8b29ae775ad8c2e48c5391");
}

#[test]
fn split_line_parts_at_first_line_feed() {
    assert_eq!(split_line(b"ab\ncd\n"), Some((&b"ab"[..], &b"cd\n"[..])));
    assert_eq!(split_line(b"\n"), Some((&b""[..], &b""[..])));
    assert_eq!(split_line(b"abc"), None);
}

#[test]
fn strip_prefix_gives_what_follows() {
    assert_eq!(strip_prefix(b"tree abc", b"tree "), Some(&b"abc"[..]));
    assert_eq!(strip_prefix(b"tree ", b"tree "), Some(&b""[..]));
    assert_eq!(strip_prefix(b"tre", b"tree "), None);
    assert_eq!(strip_prefix(b"trex abc", b"tree "), None);
}

#[test]
fn lex_le_is_byte_wise() {
    assert!(lex_le_bytes(b"", b""));
    assert!(lex_le_bytes(b"", b"a"));
    assert!(!lex_le_bytes(b"a", b""));
    assert!(lex_le_bytes(b"a", b"a"));
    assert!(lex_le_bytes(b"a", b"ab"));
    assert!(!lex_le_bytes(b"ab", b"a"));
    assert!(lex_le_bytes(b"Z", b"a"));
    assert!(lex_le_bytes(b"a.txt", b"a0"));
    assert!(!lex_le_bytes(b"\xff", b"a"));
    for (a, b) in [(&b"abc"[..], &b"abd"[..]), (b"x", b"y"), (b"", b"\0"), (b"a\0", b"a\x01")] {
        assert_eq!(lex_le_bytes(a, b), a <= b);
        assert_eq!(lex_le_bytes(b, a), b <= a);
    }
}

#[test]
fn same_bytes_compares_every_byte() {
    assert!(same_bytes(b"", b""));
    assert!(same_bytes(b"tree", b"tree"));
    assert!(!same_bytes(b"tree", b"trex"));
    assert!(!same_bytes(b"tree", b"tre"));
    assert!(!same_bytes(b"tre", b"tree"));
    assert!(!same_bytes(b"Tree", b"tree"));
}
