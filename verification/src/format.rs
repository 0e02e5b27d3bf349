use vstd::prelude::*;
use vstd::utf8::{decode_utf8, valid_utf8};
use crate::index::EntryData;
use crate::keystream::{next_state, state_after};
use crate::names::{indexed_name, sequential_name};
use crate::wire::{has_u32, le_u32};

verus! {

/// Length of the header: six signature bytes, one reserved byte, the version.
pub const HEADER_LEN: usize = 8;

/// Seed of the generator that obfuscates a sequential table.
pub const SEQUENTIAL_SEED: u32 = 0xDEADCAFE;

/// Why an archive is refused.
#[derive(Clone, Copy, Debug, PartialEq, Eq, Structural)]
pub enum FormatError {
    /// Fewer than eight bytes, or the first six are not `RGSSAD`.
    HeaderMismatch,
    /// The version byte is none of 1, 2 and 3; it is carried along.
    UnsupportedVersion(u8),
    /// An indexed archive ends before its four-byte seed.
    MissingSeed,
    /// The table does not end cleanly. Only a strict opening reports this.
    TruncatedTable,
}

/// What the library reports instead of a result.
#[derive(Clone, Copy, Debug, PartialEq, Eq, Structural)]
pub enum Error {
    /// The bytes are not an archive that can be opened.
    Format(FormatError),
    /// The index holds no entry of the name asked for.
    NotFound,
}

/// One entry as a table states it.
pub struct Record {
    pub name: Seq<char>,
    pub data: EntryData,
}

/// A record that was decoded, the place of the next one and the generator
/// state there.
pub struct Step {
    pub record: Record,
    pub next: int,
    pub key: u32,
}

/// The signature `RGSSAD`.
pub open spec fn signature() -> Seq<u8> {
    seq![0x52u8, 0x47u8, 0x53u8, 0x53u8, 0x41u8, 0x44u8]
}

/// Whether `bytes` start with a whole header that bears the signature.
pub open spec fn has_signature(bytes: Seq<u8>) -> bool {
    bytes.len() >= HEADER_LEN && bytes.subrange(0, 6) == signature()
}

/// A position in the archive as the 32-bit offset field holds it.
pub open spec fn truncated(at: int) -> u32 {
    (at % 0x1_0000_0000) as u32
}

/// The record of a sequential table at `at`, with `key` as generator state:
/// name length, name, size, each field obfuscated with fresh generator
/// output; the payload follows the size field and the next record follows
/// the payload. `None` where the bytes run out inside the record or the name
/// is not well-formed text.
pub open spec fn sequential_record(bytes: Seq<u8>, at: int, key: u32) -> Option<Step> {
    if !has_u32(bytes, at) {
        None
    } else {
        let name_len = le_u32(bytes, at) ^ key;
        let name_at = at + 4;
        let size_at = name_at + name_len;
        if size_at > bytes.len() {
            None
        } else {
            let name = sequential_name(bytes.subrange(name_at, size_at), next_state(key));
            let size_key = state_after(next_state(key), name_len as nat);
            if !valid_utf8(name) || !has_u32(bytes, size_at) {
                None
            } else {
                let size = le_u32(bytes, size_at) ^ size_key;
                let magic = next_state(size_key);
                Some(
                    Step {
                        record: Record {
                            name: decode_utf8(name),
                            data: EntryData { offset: truncated(size_at + 4), magic, size },
                        },
                        next: size_at + 4 + size,
                        key: magic,
                    },
                )
            }
        }
    }
}

/// The records of a sequential table from `at` on: they end with the first
/// that cannot be decoded. A record whose payload runs past the end of the
/// bytes still counts, and is the last.
pub open spec fn sequential_records(bytes: Seq<u8>, at: int, key: u32) -> Seq<Record>
    decreases bytes.len() - at,
{
    match sequential_record(bytes, at, key) {
        Some(step) => if step.next <= bytes.len() {
            seq![step.record] + sequential_records(bytes, step.next, step.key)
        } else {
            seq![step.record]
        },
        None => Seq::empty(),
    }
}

/// The constant key of an indexed table with the seed `seed`:
/// `seed * 9 + 3`, reduced to 32 bits.
pub open spec fn indexed_key(seed: u32) -> u32 {
    ((seed * 9 + 3) % 0x1_0000_0000) as u32
}

/// The record of an indexed table at `at`: offset, size, starting key, name
/// length, each XORed with `key`, then the name. `None` at the terminator (an
/// offset field that decodes to 0), where the bytes run out inside the record,
/// or where the name is not well-formed text.
pub open spec fn indexed_record(bytes: Seq<u8>, at: int, key: u32) -> Option<Step> {
    if !has_u32(bytes, at) || (le_u32(bytes, at) ^ key) == 0 || !has_u32(bytes, at + 12) {
        None
    } else {
        let name_len = le_u32(bytes, at + 12) ^ key;
        let name_at = at + 16;
        let next = name_at + name_len;
        if next > bytes.len() {
            None
        } else {
            let name = indexed_name(bytes.subrange(name_at, next), key);
            if !valid_utf8(name) {
                None
            } else {
                Some(
                    Step {
                        record: Record {
                            name: decode_utf8(name),
                            data: EntryData {
                                offset: le_u32(bytes, at) ^ key,
                                magic: le_u32(bytes, at + 8) ^ key,
                                size: le_u32(bytes, at + 4) ^ key,
                            },
                        },
                        next,
                        key,
                    },
                )
            }
        }
    }
}

/// The records of an indexed table from `at` on: they end at the terminator
/// or with the first record that cannot be decoded.
pub open spec fn indexed_records(bytes: Seq<u8>, at: int, key: u32) -> Seq<Record>
    decreases bytes.len() - at,
{
    match indexed_record(bytes, at, key) {
        Some(step) => seq![step.record] + indexed_records(bytes, step.next, step.key),
        None => Seq::empty(),
    }
}

/// The records of the archive `bytes`, or why it is refused. Versions 1 and 2
/// hold a sequential table behind the header; version 3 holds a seed and an
/// indexed table.
pub open spec fn archive_records(bytes: Seq<u8>) -> Result<Seq<Record>, Error> {
    if !has_signature(bytes) {
        Err(Error::Format(FormatError::HeaderMismatch))
    } else if bytes[7] == 1 || bytes[7] == 2 {
        Ok(sequential_records(bytes, HEADER_LEN as int, SEQUENTIAL_SEED))
    } else if bytes[7] == 3 {
        if has_u32(bytes, HEADER_LEN as int) {
            Ok(indexed_records(bytes, HEADER_LEN + 4, indexed_key(le_u32(bytes, HEADER_LEN as int))))
        } else {
            Err(Error::Format(FormatError::MissingSeed))
        }
    } else {
        Err(Error::Format(FormatError::UnsupportedVersion(bytes[7])))
    }
}

/// Whether the sequential table from `at` on ends cleanly: every record
/// decodes, every payload lies inside the bytes, and the last payload ends
/// where the bytes end.
pub open spec fn sequential_is_whole(bytes: Seq<u8>, at: int, key: u32) -> bool
    decreases bytes.len() - at,
{
    if at == bytes.len() {
        true
    } else {
        match sequential_record(bytes, at, key) {
            Some(step) => step.next <= bytes.len() && sequential_is_whole(bytes, step.next, step.key),
            None => false,
        }
    }
}

/// Whether `bytes` hold the terminator of an indexed table at `at`: an offset
/// field that decodes to 0.
pub open spec fn is_terminator(bytes: Seq<u8>, at: int, key: u32) -> bool {
    has_u32(bytes, at) && (le_u32(bytes, at) ^ key) == 0
}

/// Whether the indexed table from `at` on ends cleanly: every record decodes
/// up to a terminator.
pub open spec fn indexed_is_whole(bytes: Seq<u8>, at: int, key: u32) -> bool
    decreases bytes.len() - at,
{
    if is_terminator(bytes, at, key) {
        true
    } else {
        match indexed_record(bytes, at, key) {
            Some(step) => indexed_is_whole(bytes, step.next, step.key),
            None => false,
        }
    }
}

/// Whether the table of the archive `bytes` ends cleanly. `false` where the
/// archive is refused.
pub open spec fn archive_is_whole(bytes: Seq<u8>) -> bool {
    if !has_signature(bytes) {
        false
    } else if bytes[7] == 1 || bytes[7] == 2 {
        sequential_is_whole(bytes, HEADER_LEN as int, SEQUENTIAL_SEED)
    } else {
        bytes[7] == 3 && has_u32(bytes, HEADER_LEN as int) && indexed_is_whole(
            bytes,
            HEADER_LEN + 4,
            indexed_key(le_u32(bytes, HEADER_LEN as int)),
        )
    }
}

/// The records of the archive `bytes` for a caller that takes no table but a
/// whole one: as `archive_records`, but a table that does not end cleanly is
/// refused.
pub open spec fn strict_records(bytes: Seq<u8>) -> Result<Seq<Record>, Error> {
    match archive_records(bytes) {
        Ok(records) => if archive_is_whole(bytes) {
            Ok(records)
        } else {
            Err(Error::Format(FormatError::TruncatedTable))
        },
        Err(e) => Err(e),
    }
}

/// The bytes of the archive that belong to the entry `data`: `size` bytes from
/// `offset` on, as far as the archive holds them.
pub open spec fn payload(bytes: Seq<u8>, data: EntryData) -> Seq<u8> {
    let start = if data.offset <= bytes.len() {
        data.offset as int
    } else {
        bytes.len() as int
    };
    let end = if data.offset + data.size <= bytes.len() {
        data.offset + data.size
    } else {
        bytes.len() as int
    };
    bytes.subrange(start, end)
}

/// The mapping that a table's records build: each is recorded under its name
/// in turn, so of two records with one name the later stays.
pub open spec fn table_map(records: Seq<Record>) -> Map<Seq<char>, EntryData>
    decreases records.len(),
{
    if records.len() == 0 {
        Map::empty()
    } else {
        table_map(records.drop_last()).insert(records.last().name, records.last().data)
    }
}

/// The names of a table's records in the order in which they first occur.
pub open spec fn table_names(records: Seq<Record>) -> Seq<Seq<char>>
    decreases records.len(),
{
    if records.len() == 0 {
        Seq::empty()
    } else if table_map(records.drop_last()).contains_key(records.last().name) {
        table_names(records.drop_last())
    } else {
        table_names(records.drop_last()).push(records.last().name)
    }
}

} // verus!
