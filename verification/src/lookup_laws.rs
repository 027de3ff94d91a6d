//! What holds of reading a bundle that was written from a table: the
//! filter, the index and one block together give for every key what the
//! table held for it.
use crate::bloom_filter::DEFAULT_HASHES;
use crate::bloom_filter::DEFAULT_SIZE;
use crate::bloom_filter::lemma_add_key;
use crate::bloom_filter::spec_bloom_bytes;
use crate::bloom_filter::spec_may_contain;
use crate::codec_laws::lemma_block_end_range;
use crate::codec_laws::lemma_parse_index_record;
use crate::codec_laws::lemma_parse_record;
use crate::codec_laws::lemma_records_bytes_first;
use crate::encoding::key_le;
use crate::encoding::key_lt;
use crate::encoding::lemma_key_order;
use crate::encoding::lemma_u64_bytes_round_trip;
use crate::encoding::spec_u64_bytes;
use crate::error::DbError;
use crate::memtable::has_key;
use crate::memtable::lemma_map_of_at;
use crate::memtable::map_of;
use crate::memtable::position;
use crate::memtable::Record;
use crate::memtable::Slot;
use crate::memtable::strictly_sorted;
use crate::serialization::lemma_bloom_of_step;
use crate::serialization::lemma_records_bytes_last;
use crate::serialization::records_fit;
use crate::serialization::spec_block_end;
use crate::serialization::spec_bloom_of;
use crate::serialization::spec_encode;
use crate::serialization::spec_encode_from;
use crate::serialization::spec_frame;
use crate::serialization::spec_index_record;
use crate::serialization::spec_pack;
use crate::serialization::spec_records_bytes;
use crate::sst_reader::IndexEntry;
use crate::sst_reader::spec_block_lookup;
use crate::sst_reader::spec_bundle_lookup;
use crate::sst_reader::spec_index_entries;
use crate::sst_reader::spec_last_not_after;
use crate::sst_reader::spec_pick_block;
use crate::sst_reader::spec_read_block;
use crate::sst_reader::spec_scan;
use vstd::prelude::*;

verus! {

/// The slot of the first of the records from `from` up to `to` that has
/// key `key`.
pub open spec fn spec_find_in(records: Seq<Record>, from: int, to: int, key: Seq<char>) -> Option<
    Slot,
>
    decreases to - from,
{
    if from >= to {
        None
    } else if records[from].0 == key {
        Some(records[from].1)
    } else {
        spec_find_in(records, from + 1, to, key)
    }
}

/// What a table holds for `key`.
pub open spec fn spec_lookup(table: Map<Seq<char>, Slot>, key: Seq<char>) -> Option<Slot> {
    if table.contains_key(key) {
        Some(table[key])
    } else {
        None
    }
}

/// Where no record of a run has the key, nothing is found in the run.
proof fn lemma_find_in_absent(records: Seq<Record>, from: int, to: int, key: Seq<char>)
    requires
        0 <= from,
        to <= records.len(),
        forall|i: int| from <= i < to ==> (#[trigger] records[i]).0 != key,
    ensures
        spec_find_in(records, from, to, key) is None,
    decreases to - from,
{
    if from < to {
        lemma_find_in_absent(records, from + 1, to, key);
    }
}

/// Looking through a run is looking through its two parts in turn.
proof fn lemma_find_in_split(records: Seq<Record>, from: int, mid: int, to: int, key: Seq<char>)
    requires
        from <= mid <= to,
    ensures
        spec_find_in(records, from, to, key) == match spec_find_in(records, from, mid, key) {
            Some(slot) => Some(slot),
            None => spec_find_in(records, mid, to, key),
        },
    decreases mid - from,
{
    if from < mid {
        lemma_find_in_split(records, from + 1, mid, to, key);
    }
}

/// Looking through all records of a strictly sorted sequence gives what
/// their map holds.
pub proof fn lemma_find_in_map(records: Seq<Record>, from: int, key: Seq<char>)
    requires
        strictly_sorted(records),
        0 <= from <= records.len(),
        forall|i: int| 0 <= i < from ==> (#[trigger] records[i]).0 != key,
    ensures
        spec_find_in(records, from, records.len() as int, key) == spec_lookup(map_of(records), key),
    decreases records.len() - from,
{
    if from >= records.len() {
        if has_key(records, key) {
            let i = position(records, key);
            assert(records[i].0 == key);
        }
    } else if records[from].0 == key {
        lemma_map_of_at(records, from);
    } else {
        lemma_find_in_map(records, from + 1, key);
    }
}

/// Scanning the bytes of a run of records finds what looking through the
/// run finds.
pub proof fn lemma_scan_run(records: Seq<Record>, from: int, to: int, key: Seq<char>)
    requires
        records_fit(records),
        0 <= from <= to <= records.len(),
    ensures
        spec_scan(spec_records_bytes(records, from, to), key) == spec_find_in(
            records,
            from,
            to,
            key,
        ),
    decreases to - from,
{
    if from == to {
        lemma_records_bytes_last(records, from, from + 1);
    } else {
        lemma_records_bytes_first(records, from, to);
        lemma_parse_record(records[from], spec_records_bytes(records, from + 1, to));
        lemma_scan_run(records, from + 1, to, key);
    }
}

/// The keys of the entries strictly increase.
pub open spec fn entries_sorted(entries: Seq<IndexEntry>) -> bool {
    forall|i: int, j: int|
        0 <= i < j < entries.len() ==> key_lt(#[trigger] entries[i].0, #[trigger] entries[j].0)
}

/// What `spec_last_not_after` finds is the last of the first `n` entries
/// whose key is not after `key`.
proof fn lemma_last_not_after(entries: Seq<IndexEntry>, key: Seq<char>, n: int)
    requires
        0 <= n <= entries.len(),
    ensures
        match spec_last_not_after(entries, key, n) {
            Some(i) => 0 <= i < n && key_le(entries[i].0, key) && forall|j: int|
                i < j < n ==> !key_le((#[trigger] entries[j]).0, key),
            None => forall|j: int| 0 <= j < n ==> !key_le((#[trigger] entries[j]).0, key),
        },
    decreases n,
{
    if n > 0 && !key_le(entries[n - 1].0, key) {
        lemma_last_not_after(entries, key, n - 1);
    }
}

/// In an index whose keys increase, the block for a key is that of the
/// first entry, unless the second entry is not after the key: then it is
/// the block that the entries from the second on give.
proof fn lemma_pick_sorted(entries: Seq<IndexEntry>, key: Seq<char>)
    requires
        entries_sorted(entries),
        entries.len() > 0,
    ensures
        spec_pick_block(entries, key) == if entries.len() >= 2 && key_le(entries[1].0, key) {
            spec_pick_block(entries.drop_first(), key)
        } else {
            Some(entries[0].1)
        },
{
    let n = entries.len() as int;
    let tail = entries.drop_first();
    lemma_last_not_after(entries, key, n);
    lemma_last_not_after(tail, key, n - 1);
    if n >= 2 && key_le(entries[1].0, key) {
        let i = spec_last_not_after(entries, key, n).unwrap();
        let j = spec_last_not_after(tail, key, n - 1).unwrap();
        assert(tail[0] == entries[1]);
        assert(tail[j] == entries[j + 1]);
        if i < j + 1 {
            assert(key_le(entries[j + 1].0, key));
        }
        if i > j + 1 {
            assert(tail[i - 1] == entries[i]);
            assert(key_le(tail[i - 1].0, key));
        }
    } else {
        match spec_last_not_after(entries, key, n) {
            Some(i) => {
                if i >= 1 {
                    if i > 1 {
                        assert(key_lt(entries[1].0, entries[i].0));
                    }
                    lemma_key_order(entries[1].0, entries[i].0, key);
                }
            },
            None => {},
        }
    }
}

/// The eight bytes of a number are eight bytes.
proof fn lemma_u64_bytes_len(n: u64)
    ensures
        spec_u64_bytes(n).len() == 8,
{
}

/// The block whose frame stands at the end of `before` is read back from
/// there.
proof fn lemma_read_block(before: Seq<u8>, packed: Seq<u8>, after: Seq<u8>)
    requires
        packed.len() <= u64::MAX,
        (before + spec_frame(packed) + after).len() <= u64::MAX,
    ensures
        spec_read_block(before + spec_frame(packed) + after, before.len() as u64) == Ok::<
            Seq<u8>,
            DbError,
        >(packed),
{
    let data = before + spec_frame(packed) + after;
    let offset = before.len() as int;
    lemma_u64_bytes_len(packed.len() as u64);
    lemma_u64_bytes_round_trip(packed.len() as u64, packed + after);
    assert(data.skip(offset) =~= spec_u64_bytes(packed.len() as u64) + (packed + after));
    assert(data.subrange(offset + 8, offset + 8 + packed.len()) =~= packed);
}

/// The compressed block of the records from `from` on.
pub open spec fn spec_block_packed(records: Seq<Record>, from: int) -> Seq<u8> {
    spec_pack(spec_records_bytes(records, from, spec_block_end(records, from))).unwrap()
}

/// Where the data file ends once the block that starts at `from` was
/// written at `offset`.
pub open spec fn spec_after_block(records: Seq<Record>, from: int, offset: nat) -> nat {
    offset + spec_frame(spec_block_packed(records, from)).len()
}

/// What is written for the records from `from` on is the frame and the
/// index record of their first block, followed by what is written for the
/// records behind that block.
proof fn lemma_encode_unfold(records: Seq<Record>, from: int, offset: nat)
    requires
        0 <= from < records.len(),
        spec_encode_from(records, from, offset) is Some,
    ensures
        from < spec_block_end(records, from) <= records.len(),
        spec_pack(spec_records_bytes(records, from, spec_block_end(records, from))) is Some,
        spec_block_packed(records, from).len() <= u64::MAX,
        crate::serialization::gunzip_bytes(spec_block_packed(records, from)) == Some(
            spec_records_bytes(records, from, spec_block_end(records, from)),
        ),
        spec_encode_from(
            records,
            spec_block_end(records, from),
            spec_after_block(records, from, offset),
        ) is Some,
        spec_encode_from(records, from, offset).unwrap().0 == spec_frame(
            spec_block_packed(records, from),
        ) + spec_encode_from(
            records,
            spec_block_end(records, from),
            spec_after_block(records, from, offset),
        ).unwrap().0,
        spec_encode_from(records, from, offset).unwrap().1 == spec_index_record(
            records[from].0,
            offset as u64,
        ) + spec_encode_from(
            records,
            spec_block_end(records, from),
            spec_after_block(records, from, offset),
        ).unwrap().1,
{
    reveal(spec_encode_from);
    lemma_block_end_range(records, from);
}

/// Nothing is written for no records.
proof fn lemma_encode_nothing(records: Seq<Record>, from: int, offset: nat)
    requires
        from >= records.len(),
    ensures
        spec_encode_from(records, from, offset) == Some((Seq::<u8>::empty(), Seq::<u8>::empty())),
        spec_index_entries(Seq::<u8>::empty()) == Seq::<IndexEntry>::empty(),
{
    reveal(spec_encode_from);
}

/// The entries of an index begin with the entry that was written first.
proof fn lemma_index_entries_first(key: Seq<char>, offset: u64, rest: Seq<u8>)
    requires
        crate::serialization::text_fits(key),
    ensures
        spec_index_entries(spec_index_record(key, offset) + rest) == seq![(key, offset)]
            + spec_index_entries(rest),
{
    lemma_parse_index_record(key, offset, rest);
}

/// The index of a table lists the first key of each block with the place
/// of the block, in increasing order of the keys.
proof fn lemma_index_of_table(records: Seq<Record>, from: int, offset: nat)
    requires
        strictly_sorted(records),
        records_fit(records),
        0 <= from <= records.len(),
        spec_encode_from(records, from, offset) is Some,
    ensures
        ({
            let entries = spec_index_entries(spec_encode_from(records, from, offset).unwrap().1);
            &&& entries_sorted(entries)
            &&& forall|i: int|
                0 <= i < entries.len() ==> key_le(records[from].0, (#[trigger] entries[i]).0)
            &&& from >= records.len() ==> entries.len() == 0
            &&& from < records.len() ==> entries.len() > 0 && entries[0] == (
                records[from].0,
                offset as u64,
            ) && entries.drop_first() == spec_index_entries(
                spec_encode_from(
                    records,
                    spec_block_end(records, from),
                    spec_after_block(records, from, offset),
                ).unwrap().1,
            )
        }),
    decreases records.len() - from,
{
    let entries = spec_index_entries(spec_encode_from(records, from, offset).unwrap().1);
    if from >= records.len() {
        lemma_encode_nothing(records, from, offset);
    } else {
        lemma_encode_unfold(records, from, offset);
        let to = spec_block_end(records, from);
        let after = spec_after_block(records, from, offset);
        let next = spec_encode_from(records, to, after).unwrap();
        lemma_index_of_table(records, to, after);
        let rest = spec_index_entries(next.1);
        lemma_index_entries_first(records[from].0, offset as u64, next.1);
        assert(entries == seq![(records[from].0, offset as u64)] + rest);
        assert(entries.drop_first() =~= rest);
        assert forall|i: int| 0 <= i < entries.len() implies key_le(
            records[from].0,
            (#[trigger] entries[i]).0,
        ) by {
            if i > 0 {
                assert(entries[i] == rest[i - 1]);
                assert(key_lt(records[from].0, records[to].0));
                lemma_key_order(records[from].0, records[to].0, rest[i - 1].0);
            }
        }
        assert forall|i: int, j: int| 0 <= i < j < entries.len() implies key_lt(
            #[trigger] entries[i].0,
            #[trigger] entries[j].0,
        ) by {
            assert(entries[j] == rest[j - 1]);
            if i == 0 {
                assert(key_lt(records[from].0, records[to].0));
                lemma_key_order(records[from].0, records[to].0, rest[j - 1].0);
            } else {
                assert(entries[i] == rest[i - 1]);
                assert(key_lt(rest[i - 1].0, rest[j - 1].0));
            }
        }
    }
}

/// No record of a block has a key that is not before the first key behind
/// the block.
proof fn lemma_not_in_block(records: Seq<Record>, from: int, to: int, key: Seq<char>)
    requires
        strictly_sorted(records),
        0 <= from <= to < records.len(),
        key_le(records[to].0, key),
    ensures
        spec_find_in(records, from, to, key) is None,
{
    assert forall|i: int| from <= i < to implies (#[trigger] records[i]).0 != key by {
        assert(key_lt(records[i].0, records[to].0));
        lemma_key_order(records[i].0, records[to].0, key);
        lemma_key_order(records[i].0, key, key);
    }
    lemma_find_in_absent(records, from, to, key);
}

/// No record from `to` on has a key that is before the key at `to`.
proof fn lemma_not_behind(records: Seq<Record>, to: int, key: Seq<char>)
    requires
        strictly_sorted(records),
        0 <= to <= records.len(),
        to < records.len() ==> !key_le(records[to].0, key),
    ensures
        spec_find_in(records, to, records.len() as int, key) is None,
{
    assert forall|i: int| to <= i < records.len() implies (#[trigger] records[i]).0 != key by {
        lemma_key_order(key, records[to].0, records[i].0);
        if i > to {
            assert(key_lt(records[to].0, records[i].0));
        }
        lemma_key_order(key, records[i].0, key);
    }
    lemma_find_in_absent(records, to, records.len() as int, key);
}

/// Reading the block of the records from `from` on, whose frame stands at
/// `offset` of the data file, gives what looking through the block gives.
proof fn lemma_read_first_block(
    records: Seq<Record>,
    from: int,
    offset: nat,
    data: Seq<u8>,
    key: Seq<char>,
)
    requires
        records_fit(records),
        0 <= from < records.len(),
        spec_encode_from(records, from, offset) is Some,
        data.len() <= u64::MAX,
        offset <= data.len(),
        data.skip(offset as int) == spec_encode_from(records, from, offset).unwrap().0,
    ensures
        spec_read_block(data, offset as u64) == Ok::<Seq<u8>, DbError>(
            spec_block_packed(records, from),
        ),
        spec_scan(
            spec_records_bytes(records, from, spec_block_end(records, from)),
            key,
        ) == spec_find_in(records, from, spec_block_end(records, from), key),
{
    lemma_encode_unfold(records, from, offset);
    let to = spec_block_end(records, from);
    let after = spec_after_block(records, from, offset);
    let next = spec_encode_from(records, to, after).unwrap();
    let packed = spec_block_packed(records, from);
    let before = data.subrange(0, offset as int);
    assert(data =~= before + spec_frame(packed) + next.0) by {
        assert(data =~= before + data.skip(offset as int));
    }
    lemma_read_block(before, packed, next.0);
    lemma_scan_run(records, from, to, key);
}

/// Reading the index of a table and the block it points to gives, for the
/// records from `from` on, what looking through those records gives. Here
/// `data` is the whole data file, and the blocks of the records from
/// `from` on stand at `offset` of it.
proof fn lemma_lookup_from(
    records: Seq<Record>,
    from: int,
    offset: nat,
    data: Seq<u8>,
    key: Seq<char>,
)
    requires
        strictly_sorted(records),
        records_fit(records),
        0 <= from <= records.len(),
        spec_encode_from(records, from, offset) is Some,
        data.len() <= u64::MAX,
        offset <= data.len(),
        data.skip(offset as int) == spec_encode_from(records, from, offset).unwrap().0,
    ensures
        spec_block_lookup(
            data,
            spec_index_entries(spec_encode_from(records, from, offset).unwrap().1),
            key,
        ) == Ok::<Option<Slot>, DbError>(spec_find_in(records, from, records.len() as int, key)),
    decreases records.len() - from,
{
    let entries = spec_index_entries(spec_encode_from(records, from, offset).unwrap().1);
    lemma_index_of_table(records, from, offset);
    if from < records.len() {
        lemma_encode_unfold(records, from, offset);
        let to = spec_block_end(records, from);
        let after = spec_after_block(records, from, offset);
        let next = spec_encode_from(records, to, after).unwrap();
        let rest = spec_index_entries(next.1);
        assert(data.skip(after as int) =~= next.0) by {
            let packed = spec_block_packed(records, from);
            assert(data.skip(offset as int) == spec_frame(packed) + next.0);
            assert(data.skip(offset as int).skip(spec_frame(packed).len() as int) =~= next.0);
        }
        lemma_index_of_table(records, to, after);
        lemma_pick_sorted(entries, key);
        lemma_find_in_split(records, from, to, records.len() as int, key);
        if to < records.len() && key_le(records[to].0, key) {
            assert(entries[1] == rest[0]);
            lemma_lookup_from(records, to, after, data, key);
            lemma_not_in_block(records, from, to, key);
        } else {
            if to < records.len() {
                assert(entries[1] == rest[0]);
            }
            assert(spec_pick_block(entries, key) == Some(offset as u64));
            lemma_read_first_block(records, from, offset, data, key);
            lemma_not_behind(records, to, key);
        }
    }
}

/// The filter of a table has the default size.
proof fn lemma_bloom_of_len(records: Seq<Record>, n: int)
    requires
        0 <= n,
    ensures
        spec_bloom_of(records, n).len() == DEFAULT_SIZE,
    decreases n,
{
    if n == 0 {
        lemma_bloom_of_step(records, 0);
    } else {
        lemma_bloom_of_len(records, n - 1);
        lemma_bloom_of_step(records, n - 1);
    }
}

/// The filter of a table accepts every key of the table.
pub proof fn lemma_bloom_accepts(records: Seq<Record>, n: int, i: int)
    requires
        0 <= i < n,
    ensures
        spec_may_contain(spec_bloom_of(records, n), DEFAULT_HASHES as nat, records[i].0),
    decreases n,
{
    lemma_bloom_of_len(records, n - 1);
    lemma_bloom_of_step(records, n - 1);
    lemma_add_key(spec_bloom_of(records, n - 1), DEFAULT_HASHES as nat, records[n - 1].0);
    if i < n - 1 {
        lemma_bloom_accepts(records, n - 1, i);
    }
}

/// A bundle that was written from a table gives for every key what the
/// table held for it: its slot where the table held the key, and nothing
/// where it did not. The filter never rules out a key of the table, the
/// index leads to the one block that can hold the key, and the block holds
/// the records that were written into it.
pub proof fn lemma_bundle_lookup(records: Seq<Record>, key: Seq<char>)
    requires
        strictly_sorted(records),
        records_fit(records),
        spec_encode(records) is Some,
        spec_encode(records).unwrap().0.len() <= u64::MAX,
    ensures
        spec_bundle_lookup(
            spec_bloom_bytes(spec_bloom_of(records, records.len() as int), DEFAULT_HASHES),
            spec_encode(records).unwrap().1,
            spec_encode(records).unwrap().0,
            key,
        ) == Ok::<Option<Slot>, DbError>(spec_lookup(map_of(records), key)),
{
    let n = records.len() as int;
    let bits = spec_bloom_of(records, n);
    let bloom = spec_bloom_bytes(bits, DEFAULT_HASHES);
    let data = spec_encode(records).unwrap().0;
    lemma_bloom_of_len(records, n);
    assert(bloom.drop_last() =~= bits);
    assert(bloom.last() == DEFAULT_HASHES);
    assert(data.skip(0) =~= data);
    lemma_lookup_from(records, 0, 0, data, key);
    lemma_find_in_map(records, 0, key);
    if has_key(records, key) {
        lemma_bloom_accepts(records, n, position(records, key));
    }
}

} // verus!
