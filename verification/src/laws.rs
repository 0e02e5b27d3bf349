use vstd::prelude::*;
use vstd::utf8::{decode_utf8, encode_utf8, valid_utf8, decode_utf8_encode_utf8};
use crate::format::{
    archive_records, indexed_is_whole, indexed_key, indexed_record, indexed_records, is_terminator,
    sequential_record, sequential_records, table_map, Record, HEADER_LEN, SEQUENTIAL_SEED,
};
use crate::keystream::next_state;
use crate::names::{indexed_name, sequential_name, BACKSLASH};
use crate::wire::le_u32;

verus! {

/// A text that holds a backslash has the byte of the backslash among its
/// UTF-8 bytes.
pub proof fn lemma_backslash_shows_in_bytes(text: Seq<char>)
    requires
        text.contains('\\'),
    ensures
        encode_utf8(text).contains(BACKSLASH),
    decreases text.len(),
{
    let bytes = encode_utf8(text);
    if text[0] == '\\' {
        let scalar = text[0] as u32;
        assert((scalar & 0x7F) as u8 == 0x5cu8) by (bit_vector)
            requires
                scalar == 0x5c,
        ;
        assert(bytes[0] == BACKSLASH);
    } else {
        let rest = text.drop_first();
        let i = choose|i: int| 0 <= i < text.len() && text[i] == '\\';
        assert(rest[i - 1] == '\\');
        lemma_backslash_shows_in_bytes(rest);
        let tail = encode_utf8(rest);
        let j = choose|j: int| 0 <= j < tail.len() && tail[j] == BACKSLASH;
        assert(bytes[bytes.len() - tail.len() + j] == BACKSLASH);
    }
}

/// Well-formed bytes without the byte of the backslash decode to a text
/// without a backslash.
pub proof fn lemma_text_without_backslash(bytes: Seq<u8>)
    requires
        valid_utf8(bytes),
        !bytes.contains(BACKSLASH),
    ensures
        !decode_utf8(bytes).contains('\\'),
{
    if decode_utf8(bytes).contains('\\') {
        lemma_backslash_shows_in_bytes(decode_utf8(bytes));
        decode_utf8_encode_utf8(bytes);
    }
}

/// No name among `records` holds a backslash.
pub open spec fn names_normalized(records: Seq<Record>) -> bool {
    forall|i: int| 0 <= i < records.len() ==> !(#[trigger] records[i]).name.contains('\\')
}

/// The names of a sequential table are reported with `/` for every
/// backslash.
pub proof fn lemma_sequential_names(bytes: Seq<u8>, at: int, key: u32)
    ensures
        names_normalized(sequential_records(bytes, at, key)),
    decreases bytes.len() - at,
{
    match sequential_record(bytes, at, key) {
        Some(step) => {
            let name_len = le_u32(bytes, at) ^ key;
            let raw = bytes.subrange(at + 4, at + 4 + name_len);
            lemma_text_without_backslash(sequential_name(raw, next_state(key)));
            if step.next <= bytes.len() {
                lemma_sequential_names(bytes, step.next, step.key);
            }
        },
        None => {},
    }
}

/// The names of an indexed table are reported with `/` for every backslash.
pub proof fn lemma_indexed_names(bytes: Seq<u8>, at: int, key: u32)
    ensures
        names_normalized(indexed_records(bytes, at, key)),
    decreases bytes.len() - at,
{
    match indexed_record(bytes, at, key) {
        Some(step) => {
            let name_len = le_u32(bytes, at + 12) ^ key;
            let raw = bytes.subrange(at + 16, at + 16 + name_len);
            lemma_text_without_backslash(indexed_name(raw, key));
            lemma_indexed_names(bytes, step.next, step.key);
        },
        None => {},
    }
}

/// Every name of the mapping is the name of one of the records.
pub proof fn lemma_table_map_names(records: Seq<Record>, name: Seq<char>)
    requires
        table_map(records).contains_key(name),
    ensures
        exists|i: int| 0 <= i < records.len() && (#[trigger] records[i]).name == name,
    decreases records.len(),
{
    if records.len() > 0 && records.last().name != name {
        lemma_table_map_names(records.drop_last(), name);
        let i = choose|i: int|
            0 <= i < records.drop_last().len() && (#[trigger] records.drop_last()[i]).name == name;
        assert(records[i].name == name);
    }
}

/// Path normalization: whichever table an archive holds, no name of its
/// index holds a backslash.
pub proof fn lemma_names_normalized(bytes: Seq<u8>, name: Seq<char>)
    requires
        archive_records(bytes) matches Ok(records) && table_map(records).contains_key(name),
    ensures
        !name.contains('\\'),
{
    let records = archive_records(bytes).unwrap();
    if bytes[7] == 3 {
        lemma_indexed_names(
            bytes,
            HEADER_LEN + 4,
            indexed_key(le_u32(bytes, HEADER_LEN as int)),
        );
    } else {
        lemma_sequential_names(bytes, HEADER_LEN as int, SEQUENTIAL_SEED);
    }
    lemma_table_map_names(records, name);
}

/// An offset field that decodes to 0 ends an indexed table: no record is
/// read there or behind it.
pub proof fn lemma_terminator_ends_table(bytes: Seq<u8>, at: int, key: u32)
    requires
        is_terminator(bytes, at, key),
    ensures
        indexed_records(bytes, at, key) == Seq::<Record>::empty(),
        indexed_is_whole(bytes, at, key),
{
}

} // verus!
