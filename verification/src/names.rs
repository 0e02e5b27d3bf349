use vstd::prelude::*;
use vstd::utf8::{decode_utf8, valid_utf8};
use crate::keystream::{advance_magic, byte_of, key_byte, state_after};

verus! {

/// The byte of the path separator that names are stored with by some writers.
pub const BACKSLASH: u8 = 0x5c;

/// The byte of the path separator that names are reported with.
pub const SLASH: u8 = 0x2f;

/// A name byte with the separator normalized: a backslash becomes a slash.
pub open spec fn normalized(byte: u8) -> u8 {
    if byte == BACKSLASH {
        SLASH
    } else {
        byte
    }
}

/// The name bytes of a record of the sequential table: byte `i` of `raw` is
/// XORed with the low byte of the state that `i` advances from `key` reach,
/// then normalized.
pub open spec fn sequential_name(raw: Seq<u8>, key: u32) -> Seq<u8> {
    Seq::new(raw.len(), |i: int| normalized(raw[i] ^ key_byte(state_after(key, i as nat), 0)))
}

/// The name bytes of a record of the indexed table: byte `i` of `raw` is XORed
/// with byte `i mod 4` of the constant `key`, then normalized.
pub open spec fn indexed_name(raw: Seq<u8>, key: u32) -> Seq<u8> {
    Seq::new(raw.len(), |i: int| normalized(raw[i] ^ key_byte(key, i % 4)))
}

/// Decodes the `len` name bytes at `at` of a sequential table, stepping the
/// generator once for each byte.
pub fn decode_sequential_name(stream: &[u8], at: usize, len: usize, magic: &mut u32) -> (name: Vec<u8>)
    requires
        at + len <= stream.len(),
    ensures
        name@ == sequential_name(stream@.subrange(at as int, at + len), *old(magic)),
        *final(magic) == state_after(*old(magic), len as nat),
{
    let ghost raw = stream@.subrange(at as int, at + len);
    let ghost key = *magic;
    let mut name: Vec<u8> = Vec::new();
    let mut i: usize = 0;
    while i < len
        invariant
            i <= len,
            at + len <= stream.len(),
            raw == stream@.subrange(at as int, at + len),
            *magic == state_after(key, i as nat),
            name@.len() == i,
            forall|j: int| 0 <= j < i ==> name@[j] == sequential_name(raw, key)[j],
        decreases len - i,
    {
        let k: u32 = advance_magic(magic);
        let mut byte: u8 = stream[at + i] ^ byte_of(k, 0);
        if byte == BACKSLASH {
            byte = SLASH;
        }
        name.push(byte);
        i += 1;
    }
    name
}

/// Decodes the `len` name bytes at `at` of an indexed table with the table's
/// constant key.
pub fn decode_indexed_name(stream: &[u8], at: usize, len: usize, magic: u32) -> (name: Vec<u8>)
    requires
        at + len <= stream.len(),
    ensures
        name@ == indexed_name(stream@.subrange(at as int, at + len), magic),
{
    let ghost raw = stream@.subrange(at as int, at + len);
    let mut name: Vec<u8> = Vec::new();
    let mut i: usize = 0;
    while i < len
        invariant
            i <= len,
            at + len <= stream.len(),
            raw == stream@.subrange(at as int, at + len),
            name@.len() == i,
            forall|j: int| 0 <= j < i ==> name@[j] == indexed_name(raw, magic)[j],
        decreases len - i,
    {
        let phase: u32 = (i % 4) as u32;
        let mut byte: u8 = stream[at + i] ^ byte_of(magic, phase);
        if byte == BACKSLASH {
            byte = SLASH;
        }
        name.push(byte);
        i += 1;
    }
    name
}

/// The text that `bytes` encode, by `String::from_utf8` of std: `Some` exactly
/// where the bytes are well-formed UTF-8, and then the characters that they
/// encode.
#[verifier::external_body]
pub(crate) fn text_of(bytes: Vec<u8>) -> (text: Option<String>)
    ensures
        text.is_some() == valid_utf8(bytes@),
        text matches Some(s) ==> s@ == decode_utf8(bytes@),
{
    match String::from_utf8(bytes) {
        Ok(s) => Some(s),
        Err(_) => None,
    }
}

} // verus!
