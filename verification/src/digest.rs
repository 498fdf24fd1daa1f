//! Digests: twenty raw bytes, their hexadecimal text, and where an object
//! with a given digest is stored.

use vstd::prelude::*;
use vstd::string::StringSliceAdditionalSpecFns;
use vstd::utf8::*;
use sha1::Digest;
use crate::error::ObjectError;

verus! {

/// The SHA-1 digest of a byte sequence, as the `sha1` crate computes it.
pub uninterp spec fn sha1_of(data: Seq<u8>) -> Seq<u8>;

/// Calls `sha1::Sha1::digest`. Trusted: the twenty bytes returned are the
/// SHA-1 digest of `data`, a function of `data` alone.
#[verifier::external_body]
fn sha1_digest(data: &[u8]) -> (res: [u8; 20])
    ensures
        res@ == sha1_of(data@),
{
    sha1::Sha1::digest(data).into()
}

/// The lower-case hexadecimal digit for a value below sixteen.
pub open spec fn hex_digit(n: u8) -> char {
    if n < 10 {
        (48 + n) as char
    } else {
        (87 + n) as char
    }
}

/// The value of an ASCII hexadecimal digit, in either case; `None` for any
/// other byte.
pub open spec fn hex_value(c: u8) -> Option<u8> {
    if 48 <= c <= 57 {
        Some((c - 48) as u8)
    } else if 97 <= c <= 102 {
        Some((c - 87) as u8)
    } else if 65 <= c <= 70 {
        Some((c - 55) as u8)
    } else {
        None
    }
}

/// Two lower-case hexadecimal digits for each byte, high nibble first.
pub open spec fn hex_text(bytes: Seq<u8>) -> Seq<char> {
    Seq::new(
        2 * bytes.len(),
        |i: int| hex_digit(if i % 2 == 0 { bytes[i / 2] / 16 } else { bytes[i / 2] % 16 }),
    )
}

/// The hexadecimal text of `bytes` as ASCII.
pub open spec fn hex_bytes(bytes: Seq<u8>) -> Seq<u8> {
    Seq::new(2 * bytes.len(), |i: int| hex_text(bytes)[i] as u8)
}

/// Whether `text` is an even number of ASCII hexadecimal digits.
pub open spec fn is_hex_text(text: Seq<u8>) -> bool {
    &&& text.len() % 2 == 0
    &&& forall|i: int| 0 <= i < text.len() ==> (#[trigger] hex_value(text[i])) is Some
}

/// The bytes that hexadecimal `text` stands for: each pair of digits gives
/// one byte, high nibble first.
pub open spec fn hex_decoded(text: Seq<u8>) -> Seq<u8> {
    Seq::new(
        text.len() / 2,
        |i: int| (hex_value(text[2 * i]).unwrap() * 16 + hex_value(text[2 * i + 1]).unwrap()) as u8,
    )
}

/// Whether `text` is a digest in hexadecimal: exactly forty digits.
pub open spec fn is_digest_text(text: Seq<u8>) -> bool {
    text.len() == 40 && is_hex_text(text)
}

/// Where the object with digest `hash` is kept: the objects directory, a
/// directory named by the first two hexadecimal digits, and a file named by
/// the other thirty-eight.
pub open spec fn storage_path(hash: Seq<u8>) -> Seq<char> {
    ".git/objects/"@ + hex_text(hash).subrange(0, 2) + seq!['/'] + hex_text(hash).subrange(2, 40)
}

/// The directory that holds the object with digest `hash`.
pub open spec fn storage_dir(hash: Seq<u8>) -> Seq<char> {
    ".git/objects/"@ + hex_text(hash).subrange(0, 2)
}

/// The outside crate's error for text that is not hexadecimal.
#[verifier::external_type_specification]
#[verifier::external_body]
pub struct ExFromHexError(hex::FromHexError);

/// Calls `hex::decode`. Trusted: it succeeds exactly on an even number of
/// ASCII hexadecimal digits of either case, and then returns one byte for
/// each pair, the first digit as the high nibble.
#[verifier::external_body]
fn hex_decode(text: &[u8]) -> (res: Result<Vec<u8>, hex::FromHexError>)
    ensures
        res is Ok <==> is_hex_text(text@),
        res matches Ok(v) ==> v@ == hex_decoded(text@),
{
    hex::decode(text)
}

/// Calls `String::push`. Trusted: the character is appended.
#[verifier::external_body]
fn push_char(s: &mut String, c: char)
    ensures
        final(s)@ == old(s)@.push(c),
{
    s.push(c)
}

/// The lower-case hexadecimal digit for `n`.
fn hex_digit_of(n: u8) -> (c: char)
    requires
        n < 16,
    ensures
        c == hex_digit(n),
{
    if n < 10 {
        (48 + n) as char
    } else {
        (87 + n) as char
    }
}

/// Appends the two hexadecimal digits of `b` to `s`.
fn push_hex_byte(s: &mut String, b: u8)
    ensures
        final(s)@ == old(s)@.push(hex_digit(b / 16)).push(hex_digit(b % 16)),
{
    push_char(s, hex_digit_of(b / 16));
    push_char(s, hex_digit_of(b % 16));
}

/// The digest that identifies an object.
#[derive(Debug, Clone, Copy, PartialEq, Eq)]
pub struct GitHash {
    pub hash: [u8; 20],
}

impl View for GitHash {
    type V = Seq<u8>;

    open spec fn view(&self) -> Seq<u8> {
        self.hash@
    }
}

impl GitHash {
    /// Wraps twenty raw bytes.
    pub fn new(hash: [u8; 20]) -> (res: Self)
        ensures
            res.hash == hash,
    {
        Self { hash }
    }

    /// The digest of `bytes`.
    pub fn compute(bytes: &[u8]) -> (res: Self)
        ensures
            res@ == sha1_of(bytes@),
    {
        Self { hash: sha1_digest(bytes) }
    }

    /// Reads a digest from its hexadecimal text. Both cases are accepted;
    /// anything but forty hexadecimal digits is refused.
    pub fn from_str(s: &str) -> (res: Result<Self, ObjectError>)
        ensures
            res is Ok <==> is_digest_text(s.spec_bytes()),
            res matches Ok(h) ==> h@ == hex_decoded(s.spec_bytes()),
            res matches Err(e) ==> e == ObjectError::MalformedDigest,
    {
        Self::from_hex(s.as_bytes())
    }

    /// Reads a digest from its hexadecimal text, given as bytes.
    pub fn from_hex(text: &[u8]) -> (res: Result<Self, ObjectError>)
        ensures
            res is Ok <==> is_digest_text(text@),
            res matches Ok(h) ==> h@ == hex_decoded(text@),
            res matches Err(e) ==> e == ObjectError::MalformedDigest,
    {
        if text.len() != 40 {
            return Err(ObjectError::MalformedDigest);
        }
        match hex_decode(text) {
            Ok(bytes) => Ok(Self::from_raw(bytes.as_slice())),
            Err(_) => Err(ObjectError::MalformedDigest),
        }
    }

    /// The digest whose twenty raw bytes are `bytes`.
    pub(crate) fn from_raw(bytes: &[u8]) -> (res: Self)
        requires
            bytes@.len() == 20,
        ensures
            res@ == bytes@,
    {
        let mut hash = [0u8; 20];
        let mut i: usize = 0;
        while i < 20
            invariant
                i <= 20,
                bytes@.len() == 20,
                forall|j: int| 0 <= j < i ==> hash@[j] == bytes@[j],
            decreases 20 - i,
        {
            hash[i] = bytes[i];
            i += 1;
        }
        assert(hash@ =~= bytes@);
        Self { hash }
    }

    /// The digest as forty lower-case hexadecimal characters.
    pub fn to_hex(&self) -> (res: String)
        ensures
            res@ == hex_text(self@),
    {
        let mut out = String::new();
        let mut i: usize = 0;
        while i < 20
            invariant
                i <= 20,
                out@ == hex_text(self@).subrange(0, 2 * i),
            decreases 20 - i,
        {
            push_hex_byte(&mut out, self.hash[i]);
            i += 1;
            assert(out@ =~= hex_text(self@).subrange(0, 2 * i));
        }
        assert(out@ =~= hex_text(self@));
        out
    }

    /// Appends the digest as forty lower-case hexadecimal digits.
    pub fn push_hex(&self, out: &mut Vec<u8>)
        ensures
            final(out)@ == old(out)@ + hex_bytes(self@),
    {
        let mut i: usize = 0;
        assert(out@ =~= old(out)@ + hex_bytes(self@).take(0));
        while i < 20
            invariant
                i <= 20,
                out@ == old(out)@ + hex_bytes(self@).take(2 * i),
            decreases 20 - i,
        {
            let b = self.hash[i];
            out.push(hex_digit_of(b / 16) as u8);
            out.push(hex_digit_of(b % 16) as u8);
            i += 1;
            assert(out@ =~= old(out)@ + hex_bytes(self@).take(2 * i));
        }
        assert(hex_bytes(self@).take(40) =~= hex_bytes(self@));
    }

    /// The file that holds the object with this digest.
    pub fn path(&self) -> (res: String)
        ensures
            res@ == storage_path(self@),
    {
        let mut out = self.dir_path();
        push_char(&mut out, '/');
        let mut i: usize = 1;
        while i < 20
            invariant
                1 <= i <= 20,
                out@ == storage_dir(self@) + seq!['/'] + hex_text(self@).subrange(2, 2 * i),
            decreases 20 - i,
        {
            push_hex_byte(&mut out, self.hash[i]);
            i += 1;
            assert(out@ =~= storage_dir(self@) + seq!['/'] + hex_text(self@).subrange(2, 2 * i));
        }
        out
    }

    /// The directory that holds the object with this digest.
    pub fn dir_path(&self) -> (res: String)
        ensures
            res@ == storage_dir(self@),
    {
        let mut out = ".git/objects/".to_owned();
        push_hex_byte(&mut out, self.hash[0]);
        assert(out@ =~= storage_dir(self@));
        out
    }
}

/// Whether `c` is a hexadecimal digit of either case.
pub open spec fn is_hex_char(c: char) -> bool {
    ('0' <= c <= '9') || ('a' <= c <= 'f') || ('A' <= c <= 'F')
}

/// The digest is a function of the bytes: two digests computed of the same
/// bytes are one digest.
pub proof fn lemma_same_bytes_same_digest(a: GitHash, b: GitHash, bytes: Seq<u8>)
    requires
        a@ == sha1_of(bytes),
        b@ == sha1_of(bytes),
    ensures
        a == b,
{
    assert(a.hash =~= b.hash);
}

/// The hexadecimal digits of twenty bytes are a digest text, and stand for
/// those bytes.
pub proof fn lemma_hex_bytes_decoded(hash: Seq<u8>)
    requires
        hash.len() == 20,
    ensures
        is_digest_text(hex_bytes(hash)),
        hex_decoded(hex_bytes(hash)) == hash,
{
    let text = hex_bytes(hash);
    assert forall|i: int| 0 <= i < text.len() implies (#[trigger] hex_value(text[i])) is Some by {
        assert(text[i] == hex_text(hash)[i] as u8);
    }
    assert forall|i: int| 0 <= i < 20 implies hex_decoded(text)[i] == hash[i] by {
        assert(text[2 * i] == hex_text(hash)[2 * i] as u8);
        assert(text[2 * i + 1] == hex_text(hash)[2 * i + 1] as u8);
    }
    assert(hex_decoded(text) =~= hash);
}

/// Reading the hexadecimal text of a digest gives the digest back: the text
/// that `to_hex` writes is accepted by `from_str`, with the same twenty bytes.
pub proof fn lemma_hex_round_trip(h: GitHash, s: &str)
    requires
        s@ == hex_text(h@),
    ensures
        is_digest_text(s.spec_bytes()),
        hex_decoded(s.spec_bytes()) == h@,
{
    assert(h@.len() == 20);
    assert(is_ascii_chars(s@));
    is_ascii_chars_encode_utf8(s@);
    assert(s.spec_bytes() =~= hex_bytes(h@));
    lemma_hex_bytes_decoded(h@);
}

/// A text is accepted as a digest exactly when it is forty characters long
/// and each of them is a hexadecimal digit: any other length, and any other
/// character, is refused.
pub proof fn lemma_digest_text_chars(s: &str)
    ensures
        is_digest_text(s.spec_bytes()) <==> (s@.len() == 40 && forall|i: int|
            0 <= i < 40 ==> is_hex_char(#[trigger] s@[i])),
{
    let text = s.spec_bytes();
    if s@.len() == 40 && forall|i: int| 0 <= i < 40 ==> is_hex_char(#[trigger] s@[i]) {
        assert(is_ascii_chars(s@));
        is_ascii_chars_encode_utf8(s@);
        assert forall|i: int| 0 <= i < text.len() implies (#[trigger] hex_value(
            text[i],
        )) is Some by {
            assert(is_hex_char(s@[i]));
            assert(text[i] == s@[i] as u8);
        }
    }
    if is_digest_text(text) {
        let chars = Seq::new(40, |i: int| text[i] as char);
        assert forall|i: int| 0 <= i < chars.len() implies '\0' <= #[trigger] chars[i]
            <= '\u{7f}' by {
            assert(hex_value(text[i]) is Some);
        }
        assert(is_ascii_chars(chars));
        is_ascii_chars_encode_utf8(chars);
        assert forall|i: int| 0 <= i < 40 implies encode_utf8(chars)[i] == text[i] by {
            assert(hex_value(text[i]) is Some);
            assert(chars[i] as u8 == encode_utf8(chars)[i]);
        }
        assert(encode_utf8(chars) =~= text);
        encode_utf8_decode_utf8(chars);
        encode_utf8_decode_utf8(s@);
        assert(s@ == chars);
        assert forall|i: int| 0 <= i < 40 implies is_hex_char(#[trigger] s@[i]) by {
            assert(hex_value(text[i]) is Some);
        }
    }
}

} // verus!
