//! The canonical encoding of an object: a header that names the kind and
//! the payload's length, a NUL byte, and the payload.

use vstd::prelude::*;
use vstd::slice::slice_subrange;
use crate::error::ObjectError;
use crate::text::{
    all_digits, decimal_digits, digits_value, find_byte, first_index_of, is_digit, length_digits,
    lemma_decimal_digits_are_digits, lemma_digits_value_prefix, lemma_first_index_of_unique,
    lemma_parse_length_of_decimal, parse_length, push_decimal, same_bytes,
};

verus! {

/// The three kinds of object.
#[derive(Debug, Clone, Copy, PartialEq, Eq, Structural)]
pub enum ObjectKind {
    Blob,
    Tree,
    Commit,
}

/// The word that stands for a kind in an object's header.
pub open spec fn kind_token(kind: ObjectKind) -> Seq<u8> {
    match kind {
        ObjectKind::Blob => seq!['b' as u8, 'l' as u8, 'o' as u8, 'b' as u8],
        ObjectKind::Tree => seq!['t' as u8, 'r' as u8, 'e' as u8, 'e' as u8],
        ObjectKind::Commit => seq![
            'c' as u8,
            'o' as u8,
            'm' as u8,
            'm' as u8,
            'i' as u8,
            't' as u8,
        ],
    }
}

/// The kind that a header word stands for, if any.
pub open spec fn token_kind(token: Seq<u8>) -> Option<ObjectKind> {
    if token == kind_token(ObjectKind::Blob) {
        Some(ObjectKind::Blob)
    } else if token == kind_token(ObjectKind::Tree) {
        Some(ObjectKind::Tree)
    } else if token == kind_token(ObjectKind::Commit) {
        Some(ObjectKind::Commit)
    } else {
        None
    }
}

/// The header of an object of `kind` whose payload has `len` bytes: the
/// kind, a space, the length in decimal, and a NUL byte.
pub open spec fn object_header(kind: ObjectKind, len: nat) -> Seq<u8> {
    kind_token(kind) + seq![' ' as u8] + decimal_digits(len) + seq![0u8]
}

/// The canonical encoding of an object: its header, then its payload.
pub open spec fn encoded_object(kind: ObjectKind, payload: Seq<u8>) -> Seq<u8> {
    object_header(kind, payload.len()) + payload
}

/// What an encoded object decodes to. The header ends at the first NUL and
/// its two fields part at the first space. A header without either, or
/// whose length field is no number, is malformed; then an unknown kind is
/// refused; then a payload shorter than announced. Bytes after the
/// announced payload are not part of it.
pub open spec fn decoded_object(bytes: Seq<u8>) -> Result<(ObjectKind, Seq<u8>), ObjectError> {
    let nul = first_index_of(bytes, 0);
    let header = bytes.take(nul);
    let space = first_index_of(header, ' ' as u8);
    if nul == bytes.len() || space == header.len() {
        Err(ObjectError::MalformedHeader)
    } else {
        match parse_length(header.skip(space + 1)) {
            None => Err(ObjectError::MalformedHeader),
            Some(len) => match token_kind(header.take(space)) {
                None => Err(ObjectError::UnknownObjectKind),
                Some(kind) => if len > bytes.len() - (nul + 1) {
                    Err(ObjectError::TruncatedObject)
                } else {
                    Ok((kind, bytes.subrange(nul + 1, nul + 1 + len)))
                },
            },
        }
    }
}

/// Reads a length field and holds it against the bytes that are there.
pub fn read_length(field: &[u8], available: usize) -> (res: Result<usize, ObjectError>)
    ensures
        match parse_length(field@) {
            None => res == Err::<usize, ObjectError>(ObjectError::MalformedHeader),
            Some(len) => if len > available {
                res == Err::<usize, ObjectError>(ObjectError::TruncatedObject)
            } else {
                res == Ok::<usize, ObjectError>(len as usize)
            },
        },
{
    let start: usize = if field.len() > 0 && field[0] == '+' as u8 { 1 } else { 0 };
    let ghost digits = length_digits(field@);
    assert(digits =~= field@.skip(start as int));
    if start == field.len() {
        return Err(ObjectError::MalformedHeader);
    }
    let mut i: usize = start;
    while i < field.len()
        invariant
            start <= i <= field@.len(),
            digits == length_digits(field@),
            digits == field@.skip(start as int),
            forall|j: int| 0 <= j < i - start ==> is_digit(#[trigger] digits[j]),
        decreases field@.len() - i,
    {
        if field[i] < '0' as u8 || field[i] > '9' as u8 {
            assert(!is_digit(digits[i - start]));
            return Err(ObjectError::MalformedHeader);
        }
        i += 1;
    }
    assert(all_digits(digits));
    let mut value: usize = 0;
    let mut k: usize = start;
    assert(digits.take(0) =~= Seq::<u8>::empty());
    while k < field.len()
        invariant
            start <= k <= field@.len(),
            digits == length_digits(field@),
            digits == field@.skip(start as int),
            all_digits(digits),
            value == digits_value(digits.take(k - start)),
            value <= available,
        decreases field@.len() - k,
    {
        assert(is_digit(digits[k - start]));
        let digit: u8 = field[k] - '0' as u8;
        let next: u128 = value as u128 * 10 + digit as u128;
        proof {
            assert(digits.take(k - start + 1).drop_last() =~= digits.take(k - start));
            assert(next == digits_value(digits.take(k - start + 1)));
            lemma_digits_value_prefix(digits, k - start + 1);
        }
        if next > available as u128 {
            return Err(ObjectError::TruncatedObject);
        }
        value = next as usize;
        k += 1;
    }
    assert(digits.take(digits.len() as int) =~= digits);
    Ok(value)
}

/// The word that stands for `kind`.
fn kind_token_bytes(kind: ObjectKind) -> (res: Vec<u8>)
    ensures
        res@ == kind_token(kind),
{
    match kind {
        ObjectKind::Blob => vec!['b' as u8, 'l' as u8, 'o' as u8, 'b' as u8],
        ObjectKind::Tree => vec!['t' as u8, 'r' as u8, 'e' as u8, 'e' as u8],
        ObjectKind::Commit => vec![
            'c' as u8,
            'o' as u8,
            'm' as u8,
            'm' as u8,
            'i' as u8,
            't' as u8,
        ],
    }
}

/// The kind that `token` names, if any.
fn read_kind(token: &[u8]) -> (res: Option<ObjectKind>)
    ensures
        res == token_kind(token@),
{
    if same_bytes(token, kind_token_bytes(ObjectKind::Blob).as_slice()) {
        Some(ObjectKind::Blob)
    } else if same_bytes(token, kind_token_bytes(ObjectKind::Tree).as_slice()) {
        Some(ObjectKind::Tree)
    } else if same_bytes(token, kind_token_bytes(ObjectKind::Commit).as_slice()) {
        Some(ObjectKind::Commit)
    } else {
        None
    }
}

/// Appends the header of an object of `kind` with `len` payload bytes.
fn push_header(out: &mut Vec<u8>, kind: ObjectKind, len: usize)
    ensures
        final(out)@ == old(out)@ + object_header(kind, len as nat),
{
    out.extend_from_slice(kind_token_bytes(kind).as_slice());
    out.push(' ' as u8);
    assert(out@ =~= old(out)@ + kind_token(kind) + seq![' ' as u8]);
    push_decimal(out, len as u64);
    out.push(0);
    assert(out@ =~= old(out)@ + object_header(kind, len as nat));
}

/// The header of an object of `kind` whose payload has `len` bytes.
pub fn header_bytes(kind: ObjectKind, len: usize) -> (res: Vec<u8>)
    ensures
        res@ == object_header(kind, len as nat),
{
    let mut out: Vec<u8> = Vec::new();
    push_header(&mut out, kind, len);
    assert(out@ =~= object_header(kind, len as nat));
    out
}

/// Encodes an object: the header for `kind` and the payload's length, then
/// the payload unchanged.
pub fn encode_object(kind: ObjectKind, payload: &[u8]) -> (res: Vec<u8>)
    ensures
        res@ == encoded_object(kind, payload@),
{
    let mut out: Vec<u8> = Vec::new();
    push_header(&mut out, kind, payload.len());
    out.extend_from_slice(payload);
    assert(out@ =~= encoded_object(kind, payload@));
    out
}

/// Decodes an object into its kind and payload, or says what is wrong with
/// its framing.
pub fn decode_object(bytes: &[u8]) -> (res: Result<(ObjectKind, &[u8]), ObjectError>)
    ensures
        match res {
            Ok((kind, payload)) => decoded_object(bytes@) == Ok::<
                (ObjectKind, Seq<u8>),
                ObjectError,
            >((kind, payload@)),
            Err(e) => decoded_object(bytes@) == Err::<(ObjectKind, Seq<u8>), ObjectError>(e),
        },
{
    let nul = find_byte(bytes, 0, 0);
    assert(bytes@.skip(0) =~= bytes@);
    if nul == bytes.len() {
        return Err(ObjectError::MalformedHeader);
    }
    let header = slice_subrange(bytes, 0, nul);
    assert(header@ =~= bytes@.take(nul as int));
    let space = find_byte(header, 0, ' ' as u8);
    assert(header@.skip(0) =~= header@);
    if space == header.len() {
        return Err(ObjectError::MalformedHeader);
    }
    let field = slice_subrange(header, space + 1, nul);
    assert(field@ =~= header@.skip(space + 1));
    let token = slice_subrange(header, 0, space);
    assert(token@ =~= header@.take(space as int));
    let kind = read_kind(token);
    match read_length(field, bytes.len() - (nul + 1)) {
        Err(e) => if e == ObjectError::TruncatedObject && kind.is_none() {
            Err(ObjectError::UnknownObjectKind)
        } else {
            Err(e)
        },
        Ok(len) => match kind {
            None => Err(ObjectError::UnknownObjectKind),
            Some(kind) => Ok((kind, slice_subrange(bytes, nul + 1, nul + 1 + len))),
        },
    }
}

/// Decoding an encoded object gives back its kind and its payload.
pub proof fn lemma_decode_encode(kind: ObjectKind, payload: Seq<u8>)
    ensures
        decoded_object(encoded_object(kind, payload)) == Ok::<(ObjectKind, Seq<u8>), ObjectError>(
            (kind, payload),
        ),
{
    let token = kind_token(kind);
    let digits = decimal_digits(payload.len());
    let bytes = encoded_object(kind, payload);
    let head = token + seq![' ' as u8] + digits;
    lemma_decimal_digits_are_digits(payload.len());
    lemma_parse_length_of_decimal(payload.len());
    assert(bytes =~= head + seq![0u8] + payload);
    assert forall|i: int| 0 <= i < head.len() implies head[i] != 0 by {
        if i > token.len() {
            assert(is_digit(digits[i - token.len() - 1]));
        }
    }
    lemma_first_index_of_unique(bytes, 0, head.len() as int);
    assert(bytes.take(head.len() as int) =~= head);
    lemma_first_index_of_unique(head, ' ' as u8, token.len() as int);
    assert(head.skip(token.len() as int + 1) =~= digits);
    assert(head.take(token.len() as int) =~= token);
    let start = head.len() as int + 1;
    assert(bytes.subrange(start, start + payload.len()) =~= payload);
}

} // verus!
