use vstd::prelude::*;
use vstd::slice::slice_subrange;
use crate::cipher::decoded;
use crate::entry::Entry;
use crate::format::{
    archive_is_whole, archive_records, has_signature, indexed_is_whole, indexed_key, indexed_record,
    indexed_records, payload, sequential_is_whole, sequential_record, sequential_records, signature,
    strict_records, table_map, table_names, Error, FormatError, Record, HEADER_LEN, SEQUENTIAL_SEED,
};
use crate::index::{ArchiveIndex, EntryData};
use crate::keystream::advance_magic;
use crate::laws::lemma_names_normalized;
use crate::names::{decode_indexed_name, decode_sequential_name, text_of};
use crate::wire::{has_u32, le_u32, ru32};

verus! {

/// An opened archive: its bytes and the index of its entries.
#[derive(Debug)]
pub struct RGSSArchive {
    /// The entries by name.
    pub entry: ArchiveIndex,
    /// The bytes of the archive, header included.
    pub stream: Vec<u8>,
    /// Whether the table ended cleanly. A table that was cut short or holds
    /// a record that cannot be decoded still gives the index of the records
    /// before that place; this flag tells the two apart.
    pub whole: bool,
}

/// Number of bytes that `extract` pulls from a reader at a time.
pub const BUFFER_LEN: usize = 8192;

/// A record read from a table: the entry and the place behind the record's
/// last field.
#[derive(Debug)]
pub struct TableEntry {
    pub name: String,
    pub data: EntryData,
    pub end: usize,
}

/// Recording one more record extends the mapping by it, and the names by its
/// name where that is new.
proof fn lemma_table_map_push(done: Seq<Record>, record: Record)
    ensures
        table_map(done.push(record)) == table_map(done).insert(record.name, record.data),
        table_names(done.push(record)) == if table_map(done).contains_key(record.name) {
            table_names(done)
        } else {
            table_names(done).push(record.name)
        },
{
    assert(done.push(record).drop_last() =~= done);
}

/// Reads the record of a sequential table at `at` and steps the generator
/// past it. The payload begins at `end`.
pub fn read_sequential_record(bytes: &[u8], at: usize, magic: &mut u32) -> (result: Option<TableEntry>)
    ensures
        result.is_some() == sequential_record(bytes@, at as int, *old(magic)).is_some(),
        result matches Some(entry) ==> {
            let step = sequential_record(bytes@, at as int, *old(magic)).unwrap();
            &&& entry.name@ == step.record.name
            &&& entry.data == step.record.data
            &&& entry.end + entry.data.size == step.next
            &&& entry.end <= bytes.len()
            &&& *final(magic) == step.key
        },
{
    let len: usize = bytes.len();
    let name_len: u32 = match ru32(bytes, at) {
        Some(v) => v ^ advance_magic(magic),
        None => {
            return None;
        },
    };
    let name_at: usize = at + 4;
    if name_len as usize > len - name_at {
        return None;
    }
    let name_buf: Vec<u8> = decode_sequential_name(bytes, name_at, name_len as usize, magic);
    let name: String = match text_of(name_buf) {
        Some(text) => text,
        None => {
            return None;
        },
    };
    let size_at: usize = name_at + name_len as usize;
    let size: u32 = match ru32(bytes, size_at) {
        Some(v) => v ^ advance_magic(magic),
        None => {
            return None;
        },
    };
    let end: usize = size_at + 4;
    let offset: u32 = (end as u64 % 0x1_0000_0000) as u32;
    Some(TableEntry { name, data: EntryData { size, offset, magic: *magic }, end })
}

/// Reads the record of an indexed table at `at` with the table's constant
/// key. The next record begins at `end`.
pub fn read_indexed_record(bytes: &[u8], at: usize, magic: u32) -> (result: Option<TableEntry>)
    ensures
        result.is_some() == indexed_record(bytes@, at as int, magic).is_some(),
        result matches Some(entry) ==> {
            let step = indexed_record(bytes@, at as int, magic).unwrap();
            &&& entry.name@ == step.record.name
            &&& entry.data == step.record.data
            &&& entry.end == step.next
            &&& at < entry.end <= bytes.len()
        },
{
    let len: usize = bytes.len();
    let offset: u32 = match ru32(bytes, at) {
        Some(v) => v ^ magic,
        None => {
            return None;
        },
    };
    if offset == 0 {
        return None;
    }
    let size: u32 = match ru32(bytes, at + 4) {
        Some(v) => v ^ magic,
        None => {
            return None;
        },
    };
    let start_magic: u32 = match ru32(bytes, at + 8) {
        Some(v) => v ^ magic,
        None => {
            return None;
        },
    };
    let name_len: u32 = match ru32(bytes, at + 12) {
        Some(v) => v ^ magic,
        None => {
            return None;
        },
    };
    let name_at: usize = at + 16;
    if name_len as usize > len - name_at {
        return None;
    }
    let name_buf: Vec<u8> = decode_indexed_name(bytes, name_at, name_len as usize, magic);
    let name: String = match text_of(name_buf) {
        Some(text) => text,
        None => {
            return None;
        },
    };
    Some(
        TableEntry {
            name,
            data: EntryData { size, offset, magic: start_magic },
            end: name_at + name_len as usize,
        },
    )
}

/// Whether `bytes` start with a whole header that bears the signature
/// `RGSSAD`. The reserved byte behind the signature is not looked at.
pub fn is_signed(bytes: &[u8]) -> (signed: bool)
    ensures
        signed == has_signature(bytes@),
{
    if bytes.len() < HEADER_LEN {
        return false;
    }
    let signed: bool = bytes[0] == 0x52 && bytes[1] == 0x47 && bytes[2] == 0x53 && bytes[3] == 0x53
        && bytes[4] == 0x41 && bytes[5] == 0x44;
    proof {
        let head = bytes@.subrange(0, 6);
        assert(head[0] == bytes@[0] && head[1] == bytes@[1] && head[2] == bytes@[2] && head[3]
            == bytes@[3] && head[4] == bytes@[4] && head[5] == bytes@[5]);
        assert(signed ==> head =~= signature());
    }
    signed
}

/// The constant key of an indexed table from its seed. Overflow wraps.
pub fn table_key(seed: u32) -> (key: u32)
    ensures
        key == indexed_key(seed),
{
    seed.wrapping_mul(9).wrapping_add(3)
}

impl RGSSArchive {
    /// No name occurs twice in the index.
    pub open spec fn wf(&self) -> bool {
        self.entry.wf()
    }

    /// Opens the archive that `stream` holds: checks the header and reads the
    /// table that the version byte announces. A table that is cut short or
    /// holds a record that cannot be decoded gives the index of the records
    /// before that place, and `whole` says so. No name of the index holds a
    /// backslash.
    pub fn open(stream: Vec<u8>) -> (result: Result<RGSSArchive, Error>)
        ensures
            match result {
                Ok(archive) => {
                    &&& archive_records(stream@) matches Ok(records)
                    &&& archive.wf()
                    &&& archive.stream@ == stream@
                    &&& archive.entry@ == table_map(records)
                    &&& archive.entry.names() == table_names(records)
                    &&& archive.whole == archive_is_whole(stream@)
                    &&& forall|name: Seq<char>| #[trigger]
                        archive.entry@.contains_key(name) ==> !name.contains('\\')
                },
                Err(e) => archive_records(stream@) == Err::<Seq<Record>, Error>(e),
            },
    {
        if !is_signed(stream.as_slice()) {
            return Err(Error::Format(FormatError::HeaderMismatch));
        }
        let ghost bytes = stream@;
        proof {
            if archive_records(bytes) is Ok {
                let index = table_map(archive_records(bytes).unwrap());
                assert forall|name: Seq<char>| #[trigger] index.contains_key(name) implies !name.contains(
                    '\\',
                ) by {
                    lemma_names_normalized(bytes, name);
                }
            }
        }
        let version: u8 = stream[7];
        if version == 1 || version == 2 {
            Ok(RGSSArchive::open_rgssad(stream))
        } else if version == 3 {
            RGSSArchive::open_rgss3a(stream)
        } else {
            Err(Error::Format(FormatError::UnsupportedVersion(version)))
        }
    }

    /// Opens the archive that `stream` holds as `open` does, but refuses a
    /// table that does not end cleanly instead of reading what there is of
    /// it.
    pub fn open_strict(stream: Vec<u8>) -> (result: Result<RGSSArchive, Error>)
        ensures
            match result {
                Ok(archive) => {
                    &&& strict_records(stream@) matches Ok(records)
                    &&& archive.wf()
                    &&& archive.stream@ == stream@
                    &&& archive.entry@ == table_map(records)
                    &&& archive.entry.names() == table_names(records)
                    &&& archive.whole
                },
                Err(e) => strict_records(stream@) == Err::<Seq<Record>, Error>(e),
            },
    {
        match RGSSArchive::open(stream) {
            Ok(archive) => {
                if archive.whole {
                    Ok(archive)
                } else {
                    Err(Error::Format(FormatError::TruncatedTable))
                }
            },
            Err(e) => Err(e),
        }
    }

    /// The entries in the order of the index, each name with its descriptor.
    pub fn list(&self) -> (listing: Vec<(String, EntryData)>)
        ensures
            listing@.len() == self.entry.entries@.len(),
            forall|i: int|
                0 <= i < listing@.len() ==> (#[trigger] listing@[i]).0@ == self.entry.entries@[i].name@
                    && listing@[i].1 == self.entry.entries@[i].data,
    {
        let mut listing: Vec<(String, EntryData)> = Vec::new();
        let mut i: usize = 0;
        while i < self.entry.entries.len()
            invariant
                i <= self.entry.entries.len(),
                listing@.len() == i,
                forall|j: int|
                    0 <= j < i ==> (#[trigger] listing@[j]).0@ == self.entry.entries@[j].name@
                        && listing@[j].1 == self.entry.entries@[j].data,
            decreases self.entry.entries.len() - i,
        {
            listing.push((self.entry.entries[i].name.clone(), self.entry.entries[i].data));
            i += 1;
        }
        listing
    }

    /// Opens a reader over the entry called `key`. The reader starts at the
    /// entry's first byte with the entry's starting key, and its payload is
    /// bounded to the entry's size and to the archive's end.
    pub fn read_entry<'a>(&'a self, key: &str) -> (result: Result<Entry<'a>, Error>)
        requires
            self.wf(),
        ensures
            match result {
                Ok(entry) => {
                    &&& self.entry@.contains_key(key@)
                    &&& entry.wf()
                    &&& entry.offset == 0
                    &&& entry.magic == self.entry@[key@].magic
                    &&& entry.stream@ == payload(self.stream@, self.entry@[key@])
                    &&& entry@ == decoded(payload(self.stream@, self.entry@[key@]), self.entry@[key@].magic, 0)
                },
                Err(e) => !self.entry@.contains_key(key@) && e == Error::NotFound,
            },
    {
        let name: String = key.to_owned();
        match self.entry.get(&name) {
            Some(data) => {
                let len: usize = self.stream.len();
                let start: usize = if data.offset as usize <= len {
                    data.offset as usize
                } else {
                    len
                };
                let end: usize = if data.size as usize <= len - start {
                    start + data.size as usize
                } else {
                    len
                };
                let stream: &[u8] = slice_subrange(self.stream.as_slice(), start, end);
                let entry = Entry { offset: 0, magic: data.magic, stream };
                Ok(entry)
            },
            None => Err(Error::NotFound),
        }
    }

    /// The whole plaintext of the entry called `key`, pulled through a reader
    /// one buffer at a time.
    pub fn extract(&self, key: &str) -> (result: Result<Vec<u8>, Error>)
        requires
            self.wf(),
        ensures
            match result {
                Ok(plain) => {
                    &&& self.entry@.contains_key(key@)
                    &&& plain@ == decoded(payload(self.stream@, self.entry@[key@]), self.entry@[key@].magic, 0)
                },
                Err(e) => !self.entry@.contains_key(key@) && e == Error::NotFound,
            },
    {
        let mut entry: Entry = match self.read_entry(key) {
            Ok(entry) => entry,
            Err(e) => {
                return Err(e);
            },
        };
        let ghost whole = entry@;
        let mut plain: Vec<u8> = Vec::new();
        let mut buf: Vec<u8> = vec![0u8; BUFFER_LEN];
        loop
            invariant_except_break
                entry.wf(),
                buf.len() == BUFFER_LEN,
                plain@ + entry@ == whole,
            ensures
                plain@ == whole,
            decreases entry@.len(),
        {
            let count: usize = entry.read(buf.as_mut_slice());
            if count == 0 {
                break ;
            }
            let ghost before = plain@;
            let mut i: usize = 0;
            while i < count
                invariant
                    i <= count <= buf.len(),
                    plain@ == before + buf@.take(i as int),
                decreases count - i,
            {
                plain.push(buf[i]);
                i += 1;
            }
        }
        Ok(plain)
    }

    /// Reads the sequential table of a version 1 or 2 archive: records and
    /// payloads alternate behind the header, and the table ends with the
    /// first record that cannot be decoded. Offsets are kept in 32 bits.
    pub fn open_rgssad(stream: Vec<u8>) -> (archive: RGSSArchive)
        ensures
            archive.wf(),
            archive.stream@ == stream@,
            archive.entry@ == table_map(sequential_records(stream@, HEADER_LEN as int, SEQUENTIAL_SEED)),
            archive.entry.names() == table_names(
                sequential_records(stream@, HEADER_LEN as int, SEQUENTIAL_SEED),
            ),
            archive.whole == sequential_is_whole(stream@, HEADER_LEN as int, SEQUENTIAL_SEED),
    {
        let mut magic: u32 = SEQUENTIAL_SEED;
        let mut entry = ArchiveIndex::new();
        let mut at: usize = HEADER_LEN;
        let mut whole: bool = false;
        let ghost all = sequential_records(stream@, HEADER_LEN as int, SEQUENTIAL_SEED);
        let ghost mut done = Seq::<Record>::empty();

        loop
            invariant_except_break
                entry.wf(),
                entry@ == table_map(done),
                entry.names() == table_names(done),
                all == done + sequential_records(stream@, at as int, magic),
                sequential_is_whole(stream@, HEADER_LEN as int, SEQUENTIAL_SEED) == sequential_is_whole(
                    stream@,
                    at as int,
                    magic,
                ),
            ensures
                entry.wf(),
                entry@ == table_map(all),
                entry.names() == table_names(all),
                whole == sequential_is_whole(stream@, HEADER_LEN as int, SEQUENTIAL_SEED),
            decreases stream.len() - at,
        {
            let ghost step = sequential_record(stream@, at as int, magic);
            let found: TableEntry = match read_sequential_record(stream.as_slice(), at, &mut magic) {
                Some(found) => found,
                None => {
                    whole = at == stream.len();
                    break ;
                },
            };
            let ghost record = step.unwrap().record;
            proof {
                lemma_table_map_push(done, record);
            }
            let size: usize = found.data.size as usize;
            let payload: usize = found.end;
            entry.insert(found.name, found.data);
            if size > stream.len() - payload {
                assert(all =~= done.push(record));
                whole = false;
                break ;
            }
            proof {
                done = done.push(record);
            }
            at = payload + size;
        }
        RGSSArchive { entry, stream, whole }
    }

    /// Reads the indexed table of a version 3 archive: the seed behind the
    /// header gives the constant key, and records follow up to the
    /// terminator or the first that cannot be decoded.
    pub fn open_rgss3a(stream: Vec<u8>) -> (result: Result<RGSSArchive, Error>)
        ensures
            match result {
                Ok(archive) => {
                    &&& has_u32(stream@, HEADER_LEN as int)
                    &&& archive.wf()
                    &&& archive.stream@ == stream@
                    &&& archive.entry@ == table_map(
                        indexed_records(
                            stream@,
                            HEADER_LEN + 4,
                            indexed_key(le_u32(stream@, HEADER_LEN as int)),
                        ),
                    )
                    &&& archive.entry.names() == table_names(
                        indexed_records(
                            stream@,
                            HEADER_LEN + 4,
                            indexed_key(le_u32(stream@, HEADER_LEN as int)),
                        ),
                    )
                    &&& archive.whole == indexed_is_whole(
                        stream@,
                        HEADER_LEN + 4,
                        indexed_key(le_u32(stream@, HEADER_LEN as int)),
                    )
                },
                Err(e) => !has_u32(stream@, HEADER_LEN as int) && e == Error::Format(
                    FormatError::MissingSeed,
                ),
            },
    {
        let seed: u32 = match ru32(stream.as_slice(), HEADER_LEN) {
            Some(v) => v,
            None => {
                return Err(Error::Format(FormatError::MissingSeed));
            },
        };
        let magic: u32 = table_key(seed);
        let mut entry = ArchiveIndex::new();
        let mut at: usize = HEADER_LEN + 4;
        let mut whole: bool = false;
        let ghost all = indexed_records(stream@, HEADER_LEN + 4, magic);
        let ghost mut done = Seq::<Record>::empty();

        loop
            invariant_except_break
                entry.wf(),
                entry@ == table_map(done),
                entry.names() == table_names(done),
                all == done + indexed_records(stream@, at as int, magic),
                indexed_is_whole(stream@, HEADER_LEN + 4, magic) == indexed_is_whole(
                    stream@,
                    at as int,
                    magic,
                ),
            ensures
                entry.wf(),
                entry@ == table_map(all),
                entry.names() == table_names(all),
                whole == indexed_is_whole(stream@, HEADER_LEN + 4, magic),
            decreases stream.len() - at,
        {
            let ghost step = indexed_record(stream@, at as int, magic);
            let found: TableEntry = match read_indexed_record(stream.as_slice(), at, magic) {
                Some(found) => found,
                None => {
                    whole = match ru32(stream.as_slice(), at) {
                        Some(v) => (v ^ magic) == 0,
                        None => false,
                    };
                    break ;
                },
            };
            proof {
                let record = step.unwrap().record;
                lemma_table_map_push(done, record);
                done = done.push(record);
            }
            entry.insert(found.name, found.data);
            at = found.end;
        }
        Ok(RGSSArchive { entry, stream, whole })
    }
}

} // verus!
