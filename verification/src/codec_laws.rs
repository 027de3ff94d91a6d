//! What holds between writing and reading: a table that is written out and
//! read back is the same table.
use crate::deserialization::spec_decode_blocks;
use crate::deserialization::spec_decode_table;
use crate::deserialization::spec_insert_records;
use crate::deserialization::spec_parse_index_record;
use crate::deserialization::spec_parse_record;
use crate::deserialization::spec_parse_text;
use crate::encoding::lemma_u64_bytes_round_trip;
use crate::encoding::spec_u64_bytes;
use crate::memtable::lemma_insert_map;
use crate::memtable::lemma_key_order_of_sorted;
use crate::memtable::map_of;
use crate::memtable::Record;
use crate::memtable::Slot;
use crate::memtable::strictly_sorted;
use crate::serialization::lemma_records_bytes_last;
use crate::serialization::record_fits;
use crate::serialization::records_fit;
use crate::serialization::spec_block_end;
use crate::serialization::spec_encode;
use crate::serialization::spec_encode_from;
use crate::serialization::spec_frame;
use crate::serialization::spec_index_record;
use crate::serialization::spec_pack;
use crate::serialization::spec_record;
use crate::serialization::spec_records_bytes;
use crate::serialization::spec_text;
use crate::serialization::text_fits;
use vstd::prelude::*;
use vstd::utf8::encode_utf8;
use vstd::utf8::encode_utf8_decode_utf8;
use vstd::utf8::encode_utf8_valid_utf8;

verus! {

/// A text that was written is read back, whatever follows it.
pub proof fn lemma_parse_text(text: Seq<char>, rest: Seq<u8>)
    requires
        text_fits(text),
    ensures
        spec_parse_text(spec_text(text) + rest) == Some((text, spec_text(text).len() as int)),
        spec_text(text).len() == 8 + encode_utf8(text).len(),
        (spec_text(text) + rest).skip(spec_text(text).len() as int) == rest,
{
    let raw = encode_utf8(text);
    let n = raw.len() as u64;
    let b = spec_text(text) + rest;
    lemma_u64_bytes_round_trip(n, raw + rest);
    assert(b =~= spec_u64_bytes(n) + (raw + rest));
    assert(b.subrange(8, 8 + n) =~= raw);
    encode_utf8_valid_utf8(text);
    encode_utf8_decode_utf8(text);
    assert(b.skip(spec_text(text).len() as int) =~= rest);
}

/// A record that was written is read back, whatever follows it.
pub proof fn lemma_parse_record(record: Record, rest: Seq<u8>)
    requires
        record_fits(record),
    ensures
        spec_parse_record(spec_record(record) + rest) == Some(
            (record, spec_record(record).len() as int),
        ),
        spec_record(record).len() >= 9,
        (spec_record(record) + rest).skip(spec_record(record).len() as int) == rest,
{
    let b = spec_record(record) + rest;
    let n = spec_text(record.0).len() as int;
    match record.1 {
        Slot::Tombstone => {
            let after = seq![0u8] + rest;
            assert(b =~= spec_text(record.0) + after);
            lemma_parse_text(record.0, after);
            assert(b[n] == after[0]);
        },
        Slot::Put(value) => {
            let after = seq![1u8] + spec_text(value) + rest;
            assert(b =~= spec_text(record.0) + after);
            lemma_parse_text(record.0, after);
            assert(b[n] == after[0]);
            assert(b.skip(n + 1) =~= spec_text(value) + rest);
            lemma_parse_text(value, rest);
        },
    }
    assert(b.skip(spec_record(record).len() as int) =~= rest);
}

/// An index record that was written is read back, whatever follows it.
pub proof fn lemma_parse_index_record(key: Seq<char>, offset: u64, rest: Seq<u8>)
    requires
        text_fits(key),
    ensures
        spec_parse_index_record(spec_index_record(key, offset) + rest) == Some(
            ((key, offset), spec_index_record(key, offset).len() as int),
        ),
        (spec_index_record(key, offset) + rest).skip(spec_index_record(key, offset).len() as int)
            == rest,
{
    let b = spec_index_record(key, offset) + rest;
    let after = spec_u64_bytes(offset) + rest;
    assert(b =~= spec_text(key) + after);
    lemma_parse_text(key, after);
    lemma_u64_bytes_round_trip(offset, rest);
    assert(b.skip(spec_index_record(key, offset).len() as int) =~= rest);
}

/// The bytes of a run of records begin with the bytes of its first record.
pub proof fn lemma_records_bytes_first(records: Seq<Record>, from: int, to: int)
    requires
        from < to,
    ensures
        spec_records_bytes(records, from, to) == spec_record(records[from]) + spec_records_bytes(
            records,
            from + 1,
            to,
        ),
    decreases to - from,
{
    lemma_records_bytes_last(records, from, to);
    if from + 1 == to {
        lemma_records_bytes_last(records, from + 1, to + 1);
        assert(spec_records_bytes(records, from, to) =~= spec_record(records[from])
            + spec_records_bytes(records, from + 1, to));
    } else {
        lemma_records_bytes_first(records, from, to - 1);
        lemma_records_bytes_last(records, from + 1, to);
        assert(spec_records_bytes(records, from, to) =~= spec_record(records[from])
            + spec_records_bytes(records, from + 1, to));
    }
}

/// Reading the records of a run into the map of the records before it gives
/// the map of the records up to the end of the run.
pub proof fn lemma_insert_run(records: Seq<Record>, from: int, to: int)
    requires
        strictly_sorted(records),
        records_fit(records),
        0 <= from <= to <= records.len(),
    ensures
        spec_insert_records(
            spec_records_bytes(records, from, to),
            map_of(records.subrange(0, from)),
        ) == map_of(records.subrange(0, to)),
    decreases to - from,
{
    if from == to {
        lemma_records_bytes_last(records, from, from + 1);
    } else {
        let rest = spec_records_bytes(records, from + 1, to);
        lemma_records_bytes_first(records, from, to);
        lemma_parse_record(records[from], rest);
        let head = records.subrange(0, from);
        lemma_key_order_of_sorted(records, from, from + 1);
        assert forall|i: int| 0 <= i < from implies crate::encoding::key_lt(
            (#[trigger] head[i]).0,
            records[from].0,
        ) by {
            assert(crate::encoding::key_lt(records[i].0, records[from].0));
        }
        lemma_insert_map(head, from, records[from].0, records[from].1);
        assert(head.insert(from, records[from]) =~= records.subrange(0, from + 1));
        lemma_insert_run(records, from + 1, to);
    }
}

/// The end of a block lies behind its start and inside the records.
pub proof fn lemma_block_end_range(records: Seq<Record>, from: int)
    requires
        0 <= from < records.len(),
    ensures
        from < spec_block_end(records, from) <= records.len(),
{
    lemma_block_extra_range(records, from, from + 1);
}

proof fn lemma_block_extra_range(records: Seq<Record>, from: int, to: int)
    requires
        to <= records.len(),
    ensures
        to + crate::serialization::spec_block_extra(records, from, to) <= records.len(),
    decreases records.len() - to,
{
    reveal(crate::serialization::spec_block_extra);
    if to < records.len() {
        lemma_block_extra_range(records, from, to + 1);
    }
}

/// Reading the blocks that were written for the records from `from` on
/// into the map of the records before them gives the map of all records.
pub proof fn lemma_decode_blocks(records: Seq<Record>, from: int, offset: nat)
    requires
        strictly_sorted(records),
        records_fit(records),
        0 <= from <= records.len(),
        spec_encode_from(records, from, offset) is Some,
    ensures
        spec_decode_blocks(
            spec_encode_from(records, from, offset).unwrap().0,
            map_of(records.subrange(0, from)),
        ) == Some(map_of(records)),
    decreases records.len() - from,
{
    reveal(spec_encode_from);
    if from >= records.len() {
        assert(records.subrange(0, from) =~= records);
    } else {
        let to = spec_block_end(records, from);
        lemma_block_end_range(records, from);
        let raw = spec_records_bytes(records, from, to);
        let packed = spec_pack(raw).unwrap();
        let next = spec_encode_from(records, to, offset + spec_frame(packed).len());
        let data = spec_frame(packed) + next.unwrap().0;
        assert(spec_encode_from(records, from, offset).unwrap().0 == data);
        lemma_u64_bytes_round_trip(packed.len() as u64, packed + next.unwrap().0);
        assert(data =~= spec_u64_bytes(packed.len() as u64) + (packed + next.unwrap().0));
        assert(data.subrange(8, 8 + packed.len() as int) =~= packed);
        assert(data.skip(8 + packed.len() as int) =~= next.unwrap().0);
        lemma_insert_run(records, from, to);
        lemma_decode_blocks(records, to, offset + spec_frame(packed).len());
    }
}

/// A table that is written out and read back is the same table: the data
/// file of strictly sorted records decodes to the map of those records,
/// which holds the same keys with the same slots and is walked in the same
/// order.
pub proof fn lemma_round_trip(records: Seq<Record>)
    requires
        strictly_sorted(records),
        records_fit(records),
        spec_encode(records) is Some,
    ensures
        spec_decode_table(spec_encode(records).unwrap().0) == Some(map_of(records)),
{
    lemma_decode_blocks(records, 0, 0);
    assert(records.subrange(0, 0) =~= Seq::<Record>::empty());
    assert(map_of(Seq::<Record>::empty()) =~= Map::<Seq<char>, Slot>::empty());
}

} // verus!
