//! Reading one bundle for one key: which block the sparse index points to,
//! how long its frame says the block is, and what the block holds for the
//! key.
use crate::bloom_filter::spec_may_contain;
use crate::deserialization::ByteCursor;
use crate::deserialization::gzip_decode;
use crate::deserialization::KeyOffset;
use crate::deserialization::read_key_offset;
use crate::deserialization::read_key_value;
use crate::deserialization::spec_parse_index_record;
use crate::deserialization::spec_parse_record;
use crate::encoding::compare_keys;
use crate::encoding::key_le;
use crate::encoding::KeyOrder;
use crate::encoding::lemma_key_order;
use crate::encoding::read_be_u64;
use crate::encoding::spec_be_u64;
use crate::error::DbError;
use crate::memtable::MemValue;
use crate::memtable::Slot;
use crate::serialization::gunzip_bytes;
use vstd::prelude::*;

verus! {

/// An entry of the sparse index: the first key of a block and the place of
/// the block's frame in the data file.
pub type IndexEntry = (Seq<char>, u64);

/// The entries that an index file holds, up to the first place that holds
/// no entry.
pub open spec fn spec_index_entries(index: Seq<u8>) -> Seq<IndexEntry>
    decreases index.len(),
{
    match spec_parse_index_record(index) {
        Some((entry, n)) => seq![entry] + spec_index_entries(index.skip(n)),
        None => Seq::empty(),
    }
}

/// The place of the last of the first `n` entries whose key is not after
/// `key`.
pub open spec fn spec_last_not_after(entries: Seq<IndexEntry>, key: Seq<char>, n: int) -> Option<
    int,
>
    decreases n,
{
    if n <= 0 {
        None
    } else if key_le(entries[n - 1].0, key) {
        Some(n - 1)
    } else {
        spec_last_not_after(entries, key, n - 1)
    }
}

/// The block to read for `key`: that of the last entry whose key is not
/// after `key`; the first block where every entry is after it; none where
/// the index is empty.
pub open spec fn spec_pick_block(entries: Seq<IndexEntry>, key: Seq<char>) -> Option<u64> {
    if entries.len() == 0 {
        None
    } else {
        match spec_last_not_after(entries, key, entries.len() as int) {
            Some(i) => Some(entries[i].1),
            None => Some(entries[0].1),
        }
    }
}

/// What the records at the head of `raw` hold for `key`: the slot of the
/// first record with that key, looking up to the first place that holds no
/// record.
pub open spec fn spec_scan(raw: Seq<u8>, key: Seq<char>) -> Option<Slot>
    decreases raw.len(),
{
    match spec_parse_record(raw) {
        Some((record, n)) => if record.0 == key {
            Some(record.1)
        } else {
            spec_scan(raw.skip(n), key)
        },
        None => None,
    }
}

/// The compressed block whose frame stands at `offset` of the data file,
/// as the two reads deliver it: eight bytes at `offset`, then as many bytes
/// as those eight say. A read past the end of the file fails.
pub open spec fn spec_read_block(data: Seq<u8>, offset: u64) -> Result<Seq<u8>, DbError> {
    if offset + 8 > data.len() {
        Err(DbError::Io)
    } else {
        let n = spec_be_u64(data.skip(offset as int));
        if offset + 8 + n > data.len() {
            Err(DbError::Io)
        } else {
            Ok(data.subrange(offset + 8, offset + 8 + n))
        }
    }
}

/// What the block that the index entries point to holds for `key`.
pub open spec fn spec_block_lookup(data: Seq<u8>, entries: Seq<IndexEntry>, key: Seq<char>)
    -> Result<Option<Slot>, DbError> {
    match spec_pick_block(entries, key) {
        None => Ok(None),
        Some(offset) => match spec_read_block(data, offset) {
            Err(e) => Err(e),
            Ok(packed) => match gunzip_bytes(packed) {
                None => Err(DbError::Decode),
                Some(raw) => Ok(spec_scan(raw, key)),
            },
        },
    }
}

/// What one bundle holds for `key`, by the bytes of its three files: the
/// filter is asked first, then the index, then one block of the data file.
pub open spec fn spec_bundle_lookup(
    bloom: Seq<u8>,
    index: Seq<u8>,
    data: Seq<u8>,
    key: Seq<char>,
) -> Result<Option<Slot>, DbError> {
    if bloom.len() < 2 {
        Err(DbError::Decode)
    } else if !spec_may_contain(bloom.drop_last(), bloom.last() as nat, key) {
        Ok(None)
    } else {
        spec_block_lookup(data, spec_index_entries(index), key)
    }
}

/// The views of a vector of index entries.
pub open spec fn entries_of(entries: Seq<KeyOffset>) -> Seq<IndexEntry> {
    Seq::new(entries.len(), |i: int| entries[i]@)
}

/// The slot of an optional value.
pub open spec fn slot_of(value: Option<MemValue>) -> Option<Slot> {
    match value {
        Some(v) => Some(v@),
        None => None,
    }
}

/// Reads the entries of an index file. Reading stops at the first place
/// that holds no entry.
pub fn parse_index(index: Vec<u8>) -> (entries: Vec<KeyOffset>)
    ensures
        entries_of(entries@) == spec_index_entries(index@),
{
    let mut cursor = ByteCursor::new(index);
    let mut entries: Vec<KeyOffset> = Vec::new();
    assert(entries_of(entries@) + spec_index_entries(cursor.rest()) =~= spec_index_entries(
        index@,
    ));
    loop
        invariant
            cursor.wf(),
            entries_of(entries@) + spec_index_entries(cursor.rest()) == spec_index_entries(
                index@,
            ),
        ensures
            entries_of(entries@) == spec_index_entries(index@),
        decreases cursor.rest().len(),
    {
        let ghost rest = cursor.rest();
        let ghost before = entries_of(entries@);
        match read_key_offset(&mut cursor) {
            Ok(entry) => {
                proof {
                    let n = spec_parse_index_record(rest).unwrap().1;
                    assert(cursor.rest() =~= rest.skip(n));
                }
                let ghost e = entry@;
                entries.push(entry);
                assert(entries_of(entries@) =~= before.push(e));
                assert(before.push(e) + spec_index_entries(cursor.rest()) =~= before + (seq![e]
                    + spec_index_entries(cursor.rest())));
            },
            Err(_) => {
                assert(before + Seq::<IndexEntry>::empty() =~= before);
                break ;
            },
        }
    }
    entries
}

/// Picks the block to read for `key` from the entries of the index: that
/// of the last entry whose key is not after `key`, and otherwise the first.
pub fn pick_block(entries: &Vec<KeyOffset>, key: &str) -> (offset: Option<u64>)
    ensures
        offset == spec_pick_block(entries_of(entries@), key@),
{
    if entries.len() == 0 {
        return None;
    }
    let ghost views = entries_of(entries@);
    let mut i: usize = entries.len();
    while i > 0
        invariant
            i <= entries@.len(),
            views == entries_of(entries@),
            spec_last_not_after(views, key@, views.len() as int) == spec_last_not_after(
                views,
                key@,
                i as int,
            ),
        decreases i,
    {
        let entry = &entries[i - 1];
        assert(entry@ == views[i - 1]);
        match compare_keys(entry.key.as_str(), key) {
            KeyOrder::Greater => {
                proof {
                    lemma_key_order(entry.key@, key@, entry.key@);
                }
            },
            _ => {
                return Some(entry.offset);
            },
        }
        i -= 1;
    }
    Some(entries[0].offset)
}

/// The block to read for `key` according to an index file.
pub fn find_block_offset(index: Vec<u8>, key: &str) -> (offset: Option<u64>)
    ensures
        offset == spec_pick_block(spec_index_entries(index@), key@),
{
    let entries = parse_index(index);
    pick_block(&entries, key)
}

/// The length of a block, from the first eight bytes of its frame.
pub fn block_length(frame: &[u8]) -> (r: Result<u64, DbError>)
    ensures
        match r {
            Ok(n) => frame@.len() >= 8 && n == spec_be_u64(frame@),
            Err(e) => frame@.len() < 8 && e == DbError::Decode,
        },
{
    if frame.len() < 8 {
        Err(DbError::Decode)
    } else {
        Ok(read_be_u64(frame))
    }
}

/// What an unpacked block holds for `key`: the value of the first record
/// with that key. What cannot be read as a record ends the block.
pub fn scan_block(raw: Vec<u8>, key: &str) -> (found: Option<MemValue>)
    ensures
        slot_of(found) == spec_scan(raw@, key@),
{
    let mut cursor = ByteCursor::new(raw);
    loop
        invariant
            cursor.wf(),
            spec_scan(cursor.rest(), key@) == spec_scan(raw@, key@),
        decreases cursor.rest().len(),
    {
        let ghost rest = cursor.rest();
        match read_key_value(&mut cursor) {
            Ok(kv) => {
                proof {
                    let n = spec_parse_record(rest).unwrap().1;
                    assert(cursor.rest() =~= rest.skip(n));
                    lemma_key_order(kv.key@, key@, key@);
                }
                match compare_keys(kv.key.as_str(), key) {
                    KeyOrder::Equal => {
                        return Some(kv.value);
                    },
                    _ => {},
                }
            },
            Err(_) => {
                return None;
            },
        }
    }
}

/// What a compressed block holds for `key`. A block that does not unpack
/// is an error.
pub fn find_in_block(packed: &[u8], key: &str) -> (r: Result<Option<MemValue>, DbError>)
    ensures
        match gunzip_bytes(packed@) {
            Some(raw) => r matches Ok(found) && slot_of(found) == spec_scan(raw, key@),
            None => r matches Err(e) && e == DbError::Decode,
        },
{
    match gzip_decode(packed) {
        Some(raw) => Ok(scan_block(raw, key)),
        None => Err(DbError::Decode),
    }
}

} // verus!
