//! Writing a table out: the records go into compressed blocks of the data
//! file, the first key of each block into the sparse index, and every key
//! into the Bloom filter.
use crate::bloom_filter::DEFAULT_HASHES;
use crate::bloom_filter::DEFAULT_SIZE;
use crate::bloom_filter::DefaultBloomFilter;
use crate::bloom_filter::spec_add_key;
use crate::codec_laws::lemma_round_trip;
use crate::deserialization::spec_decode_table;
use crate::encoding::push_u64;
use crate::encoding::spec_u64_bytes;
use crate::error::DbError;
use crate::memtable::KeyValue;
use crate::memtable::MemTable;
use crate::memtable::MemValue;
use crate::memtable::Record;
use crate::memtable::records_of;
use crate::memtable::Slot;
use flate2::Compression;
use flate2::write::GzEncoder;
use std::io::Write;
use vstd::prelude::*;
use vstd::utf8::encode_utf8;

verus! {

/// A block is closed once at least this many bytes of records have been
/// handed to its encoder.
pub const BLOCK_THRESHOLD: usize = 4096;

/// The kind byte of a tombstone.
pub const KIND_TOMBSTONE: u8 = 0;

/// The kind byte of a value.
pub const KIND_PUT: u8 = 1;

/// The gzip stream that the encoder makes of `raw` at the default level, or
/// nothing where it fails.
pub uninterp spec fn gzip_bytes(raw: Seq<u8>) -> Option<Seq<u8>>;

/// The bytes that the decoder reads out of the gzip stream `packed`, or
/// nothing where the stream is malformed.
pub uninterp spec fn gunzip_bytes(packed: Seq<u8>) -> Option<Seq<u8>>;

/// The compressed form of a block: the gzip stream of `raw`, which unpacks
/// to `raw` again and whose length fits a 64-bit prefix.
pub open spec fn spec_pack(raw: Seq<u8>) -> Option<Seq<u8>> {
    match gzip_bytes(raw) {
        Some(z) => if gunzip_bytes(z) == Some(raw) && z.len() <= u64::MAX {
            Some(z)
        } else {
            None
        },
        None => None,
    }
}

/// Feeds `raw` to a `flate2::write::GzEncoder` over a vector, at
/// `Compression::default()`, and finishes it. The claim: the stream that
/// comes out depends on `raw` alone, and `flate2::read::GzDecoder` reads
/// `raw` back out of it.
#[verifier::external_body]
pub(crate) fn gzip_encode(raw: &[u8]) -> (out: Option<Vec<u8>>)
    ensures
        out matches Some(z) ==> gzip_bytes(raw@) == Some(z@) && gunzip_bytes(z@) == Some(raw@),
        out is None ==> gzip_bytes(raw@) is None,
{
    let mut encoder = GzEncoder::new(Vec::new(), Compression::default());
    encoder.write_all(raw).ok()?;
    encoder.finish().ok()
}

/// The length of the text in bytes fits its 64-bit prefix.
pub open spec fn text_fits(text: Seq<char>) -> bool {
    encode_utf8(text).len() <= u64::MAX
}

/// The key and the value of the record fit their prefixes.
pub open spec fn record_fits(record: Record) -> bool {
    text_fits(record.0) && match record.1 {
        Slot::Put(value) => text_fits(value),
        Slot::Tombstone => true,
    }
}

/// Every record fits.
pub open spec fn records_fit(records: Seq<Record>) -> bool {
    forall|i: int| 0 <= i < records.len() ==> record_fits(#[trigger] records[i])
}

/// A text with its length in bytes before it.
pub open spec fn spec_text(text: Seq<char>) -> Seq<u8> {
    spec_u64_bytes(encode_utf8(text).len() as u64) + encode_utf8(text)
}

/// The bytes of a record: the key, the kind byte and, for a value, the
/// value.
pub open spec fn spec_record(record: Record) -> Seq<u8> {
    match record.1 {
        Slot::Tombstone => spec_text(record.0) + seq![KIND_TOMBSTONE],
        Slot::Put(value) => spec_text(record.0) + seq![KIND_PUT] + spec_text(value),
    }
}

/// The bytes of an index record: the first key of a block and the place of
/// the block in the data file.
pub open spec fn spec_index_record(key: Seq<char>, offset: u64) -> Seq<u8> {
    spec_text(key) + spec_u64_bytes(offset)
}

/// The bytes of the records from `from` up to `to`, one after another.
#[verifier::opaque]
pub open spec fn spec_records_bytes(records: Seq<Record>, from: int, to: int) -> Seq<u8>
    decreases to - from,
{
    if from >= to {
        Seq::empty()
    } else {
        spec_records_bytes(records, from, to - 1) + spec_record(records[to - 1])
    }
}

/// How many more records the block that starts at `from` takes when it
/// holds those up to `to` already: it goes on while it is under the
/// threshold and records are left.
#[verifier::opaque]
pub open spec fn spec_block_extra(records: Seq<Record>, from: int, to: int) -> nat
    decreases records.len() - to,
{
    if to >= records.len() || spec_records_bytes(records, from, to).len() >= BLOCK_THRESHOLD {
        0
    } else {
        1 + spec_block_extra(records, from, to + 1)
    }
}

/// Where the block that starts at `from` ends: it takes at least one
/// record.
pub open spec fn spec_block_end(records: Seq<Record>, from: int) -> int {
    from + 1 + spec_block_extra(records, from, from + 1)
}

/// A compressed block with its length before it.
pub open spec fn spec_frame(packed: Seq<u8>) -> Seq<u8> {
    spec_u64_bytes(packed.len() as u64) + packed
}

/// The data file and the index of the records from `from` on, where the
/// data file holds `offset` bytes already. Nothing where a block cannot be
/// compressed.
#[verifier::opaque]
pub open spec fn spec_encode_from(records: Seq<Record>, from: int, offset: nat) -> Option<
    (Seq<u8>, Seq<u8>),
>
    decreases
            (if from < records.len() {
                records.len() - from
            } else {
                0
            }),
{
    if from < 0 || from >= records.len() {
        Some((Seq::empty(), Seq::empty()))
    } else {
        let to = from + 1 + spec_block_extra(records, from, from + 1);
        match spec_pack(spec_records_bytes(records, from, to)) {
            None => None,
            Some(packed) => match spec_encode_from(
                records,
                to,
                offset + spec_frame(packed).len(),
            ) {
                None => None,
                Some((data, index)) => Some(
                    (
                        spec_frame(packed) + data,
                        spec_index_record(records[from].0, #[verifier::truncate] (offset as u64))
                            + index,
                    ),
                ),
            },
        }
    }
}

/// The data file and the index of a table.
pub open spec fn spec_encode(records: Seq<Record>) -> Option<(Seq<u8>, Seq<u8>)> {
    spec_encode_from(records, 0, 0)
}

/// The positions of a filter of the default size after the keys of the
/// first `n` records were added.
#[verifier::opaque]
pub open spec fn spec_bloom_of(records: Seq<Record>, n: int) -> Seq<u8>
    decreases n,
{
    if n <= 0 {
        Seq::new(DEFAULT_SIZE as nat, |i: int| 0u8)
    } else {
        spec_add_key(spec_bloom_of(records, n - 1), DEFAULT_HASHES as nat, records[n - 1].0)
    }
}

/// What `before` and what is still to come make together.
pub open spec fn spec_join(
    data: Seq<u8>,
    index: Seq<u8>,
    rest: Option<(Seq<u8>, Seq<u8>)>,
) -> Option<(Seq<u8>, Seq<u8>)> {
    match rest {
        None => None,
        Some((more_data, more_index)) => Some((data + more_data, index + more_index)),
    }
}

/// The three files of a table.
#[derive(Debug)]
pub struct SerializedTableData {
    pub main_data: Vec<u8>,
    pub offsets: Vec<u8>,
    pub bloom_filter: DefaultBloomFilter,
}

/// Appends `text` with its length before it.
pub fn push_text(out: &mut Vec<u8>, text: &str)
    ensures
        final(out)@ == old(out)@ + spec_text(text@),
        text_fits(text@),
{
    let bytes = text.as_bytes();
    let ghost before = out@;
    push_u64(out, bytes.len() as u64);
    out.extend_from_slice(bytes);
    assert(out@ =~= before + spec_text(text@));
}

/// Appends the record of `key` and `value`.
pub fn encode_record(out: &mut Vec<u8>, key: &str, value: &MemValue)
    ensures
        final(out)@ == old(out)@ + spec_record((key@, value@)),
        record_fits((key@, value@)),
{
    let ghost before = out@;
    push_text(out, key);
    match value {
        MemValue::Delete => {
            out.push(KIND_TOMBSTONE);
            assert(out@ =~= before + spec_record((key@, value@)));
        },
        MemValue::Put(text) => {
            out.push(KIND_PUT);
            push_text(out, text.as_str());
            assert(out@ =~= before + spec_record((key@, value@)));
        },
    }
}

proof fn lemma_block_extra_step(records: Seq<Record>, from: int, to: int)
    requires
        0 <= from < to < records.len(),
        spec_records_bytes(records, from, to).len() < BLOCK_THRESHOLD,
    ensures
        to + spec_block_extra(records, from, to) == to + 1 + spec_block_extra(
            records,
            from,
            to + 1,
        ),
{
    reveal(spec_block_extra);
}

proof fn lemma_block_extra_stop(records: Seq<Record>, from: int, to: int)
    requires
        to >= records.len() || spec_records_bytes(records, from, to).len() >= BLOCK_THRESHOLD,
    ensures
        spec_block_extra(records, from, to) == 0,
{
    reveal(spec_block_extra);
}

/// A record takes at least nine bytes.
pub proof fn lemma_record_len(record: Record)
    ensures
        spec_record(record).len() >= 9,
{
}

/// The bytes of a run of records end with the bytes of its last record.
pub proof fn lemma_records_bytes_last(records: Seq<Record>, from: int, to: int)
    requires
        from < to,
    ensures
        spec_records_bytes(records, from, to) == spec_records_bytes(records, from, to - 1)
            + spec_record(records[to - 1]),
        spec_records_bytes(records, from, from) == Seq::<u8>::empty(),
{
    reveal_with_fuel(spec_records_bytes, 2);
}

/// The filter takes the keys one after another.
pub proof fn lemma_bloom_of_step(records: Seq<Record>, n: int)
    requires
        n >= 0,
    ensures
        spec_bloom_of(records, n + 1) == spec_add_key(
            spec_bloom_of(records, n),
            DEFAULT_HASHES as nat,
            records[n].0,
        ),
        spec_bloom_of(records, 0) == Seq::new(DEFAULT_SIZE as nat, |i: int| 0u8),
{
    reveal_with_fuel(spec_bloom_of, 2);
}

/// Nothing is left to write behind the last record.
proof fn lemma_encode_done(records: Seq<Record>, data: Seq<u8>, index: Seq<u8>)
    ensures
        spec_join(data, index, spec_encode_from(records, records.len() as int, data.len()))
            == Some((data, index)),
{
    reveal(spec_encode_from);
    assert(data + Seq::<u8>::empty() =~= data);
    assert(index + Seq::<u8>::empty() =~= index);
}

/// Nothing is written yet before the first record.
proof fn lemma_encode_start(records: Seq<Record>)
    ensures
        spec_join(Seq::empty(), Seq::empty(), spec_encode_from(records, 0, 0)) == spec_encode(
            records,
        ),
{
    reveal(spec_encode_from);
    let rest = spec_encode_from(records, 0, 0);
    if rest is Some {
        assert(Seq::<u8>::empty() + rest.unwrap().0 =~= rest.unwrap().0);
        assert(Seq::<u8>::empty() + rest.unwrap().1 =~= rest.unwrap().1);
    }
}

/// Closing the block that starts at `start` moves its frame and its index
/// record from what is to come to what is written.
proof fn lemma_encode_step(
    records: Seq<Record>,
    start: int,
    to: int,
    data: Seq<u8>,
    index: Seq<u8>,
    packed: Seq<u8>,
)
    requires
        0 <= start < records.len(),
        to == spec_block_end(records, start),
        spec_pack(spec_records_bytes(records, start, to)) == Some(packed),
    ensures
        spec_join(data, index, spec_encode_from(records, start, data.len())) == spec_join(
            data + spec_frame(packed),
            index + spec_index_record(records[start].0, data.len() as u64),
            spec_encode_from(records, to, (data + spec_frame(packed)).len()),
        ),
{
    reveal(spec_encode_from);
    let rest = spec_encode_from(records, to, data.len() + spec_frame(packed).len());
    if rest is Some {
        let more_data = rest.unwrap().0;
        let more_index = rest.unwrap().1;
        let record = spec_index_record(records[start].0, data.len() as u64);
        assert(data + (spec_frame(packed) + more_data) =~= data + spec_frame(packed) + more_data);
        assert(index + (record + more_index) =~= index + record + more_index);
    }
}

/// Where the block that starts at `start` cannot be compressed, the table
/// cannot be written.
proof fn lemma_encode_fail(
    records: Seq<Record>,
    start: int,
    to: int,
    data: Seq<u8>,
    index: Seq<u8>,
)
    requires
        0 <= start < records.len(),
        to == spec_block_end(records, start),
        spec_pack(spec_records_bytes(records, start, to)) is None,
    ensures
        spec_join(data, index, spec_encode_from(records, start, data.len())) is None,
{
    reveal(spec_encode_from);
}

/// What has been written of a table so far: the files as they grow, and
/// the records of the block that is still open.
#[derive(Debug)]
pub struct SerializedFoldState {
    table_data: SerializedTableData,
    block: Vec<u8>,
}

impl SerializedFoldState {
    /// The data file so far.
    pub closed spec fn data(&self) -> Seq<u8> {
        self.table_data.main_data@
    }

    /// The index so far.
    pub closed spec fn index(&self) -> Seq<u8> {
        self.table_data.offsets@
    }

    /// The records of the open block.
    pub closed spec fn block(&self) -> Seq<u8> {
        self.block@
    }

    /// The positions of the filter so far.
    pub closed spec fn bits(&self) -> Seq<u8> {
        self.table_data.bloom_filter.bits()
    }

    /// The filter is one of the default size and rounds.
    pub closed spec fn wf(&self) -> bool {
        &&& self.table_data.bloom_filter.wf()
        &&& self.table_data.bloom_filter.n_hashes() == DEFAULT_HASHES
    }

    /// Nothing written, no block open, an empty filter.
    pub fn new() -> (r: Self)
        ensures
            r.wf(),
            r.data() == Seq::<u8>::empty(),
            r.index() == Seq::<u8>::empty(),
            r.block() == Seq::<u8>::empty(),
            r.bits() == Seq::new(DEFAULT_SIZE as nat, |i: int| 0u8),
    {
        SerializedFoldState {
            table_data: SerializedTableData {
                main_data: Vec::new(),
                offsets: Vec::new(),
                bloom_filter: DefaultBloomFilter::default(),
            },
            block: Vec::new(),
        }
    }

    /// Takes one entry: its key goes to the filter and, where it opens a
    /// block, to the index; its record goes to the open block. The answer
    /// is the size of the open block.
    pub fn push_entry(&mut self, entry: &KeyValue) -> (size: usize)
        requires
            old(self).wf(),
        ensures
            final(self).wf(),
            final(self).data() == old(self).data(),
            final(self).index() == if old(self).block().len() == 0 {
                old(self).index() + spec_text(entry@.0)
            } else {
                old(self).index()
            },
            final(self).block() == old(self).block() + spec_record(entry@),
            final(self).bits() == spec_add_key(old(self).bits(), DEFAULT_HASHES as nat, entry@.0),
            size == final(self).block().len(),
            record_fits(entry@),
    {
        self.table_data.bloom_filter.add_key(entry.key.as_str());
        if self.block.len() == 0 {
            push_text(&mut self.table_data.offsets, entry.key.as_str());
        }
        encode_record(&mut self.block, entry.key.as_str(), &entry.value);
        self.block.len()
    }

    /// Closes the open block: it is compressed, its frame goes to the end
    /// of the data file, and the place of the frame goes to the index.
    pub fn close_block(&mut self) -> (r: Result<(), DbError>)
        requires
            old(self).wf(),
        ensures
            final(self).wf(),
            final(self).bits() == old(self).bits(),
            match spec_pack(old(self).block()) {
                Some(packed) => r is Ok && final(self).data() == old(self).data() + spec_frame(
                    packed,
                ) && final(self).index() == old(self).index() + spec_u64_bytes(
                    old(self).data().len() as u64,
                ) && final(self).block() == Seq::<u8>::empty(),
                None => r == Err::<(), DbError>(DbError::Io),
            },
    {
        let packed = match gzip_encode(self.block.as_slice()) {
            Some(z) => z,
            None => {
                return Err(DbError::Io);
            },
        };
        let packed_len: usize = packed.len();
        let ghost data_before = self.table_data.main_data@;
        push_u64(&mut self.table_data.offsets, self.table_data.main_data.len() as u64);
        push_u64(&mut self.table_data.main_data, packed_len as u64);
        self.table_data.main_data.extend_from_slice(packed.as_slice());
        assert(self.table_data.main_data@ =~= data_before + spec_frame(packed@));
        self.block = Vec::new();
        Ok(())
    }

    /// The files, once every block is closed.
    pub fn finish(self) -> (r: SerializedTableData)
        ensures
            r.main_data@ == self.data(),
            r.offsets@ == self.index(),
            r.bloom_filter.bits() == self.bits(),
            self.wf() ==> r.bloom_filter.wf() && r.bloom_filter.n_hashes() == DEFAULT_HASHES,
    {
        self.table_data
    }
}

impl MemTable {
    /// Writes the table out. Records go into the current block in key
    /// order; the block is compressed and framed once it holds at least
    /// `BLOCK_THRESHOLD` bytes, or with the last record. The index gets the
    /// first key of each block with the place of its frame in the data
    /// file, and the filter gets every key.
    pub fn serialize(self) -> (r: Result<SerializedTableData, DbError>)
        ensures
            match spec_encode(self.records()) {
                Some((data, index)) => r matches Ok(out) && out.main_data@ == data
                    && out.offsets@ == index && out.bloom_filter.wf()
                    && out.bloom_filter.n_hashes() == DEFAULT_HASHES && out.bloom_filter.bits()
                    == spec_bloom_of(self.records(), self.records().len() as int),
                None => r == Err::<SerializedTableData, DbError>(DbError::Io),
            },
            self.wf() ==> (r matches Ok(out) ==> spec_decode_table(out.main_data@) == Some(self@)),
    {
        let ghost records = self.records();
        let entries: Vec<KeyValue> = self.0.into_entries();
        let n: usize = entries.len();
        let mut state = SerializedFoldState::new();
        let ghost mut start: int = 0;
        let ghost mut index_done: Seq<u8> = Seq::empty();
        let mut idx: usize = 0;
        proof {
            lemma_encode_start(records);
            lemma_bloom_of_step(records, 0);
            lemma_records_bytes_last(records, 0, 1);
        }
        while idx < n
            invariant
                n == entries@.len(),
                records == self.records(),
                records == records_of(entries@),
                records.len() == n,
                0 <= start <= idx <= n,
                start < idx ==> idx < n,
                state.wf(),
                state.block() == spec_records_bytes(records, start, idx as int),
                start < idx ==> 0 < state.block().len() < BLOCK_THRESHOLD,
                start == idx ==> state.block().len() == 0,
                start < idx ==> spec_block_end(records, start) == idx + spec_block_extra(
                    records,
                    start,
                    idx as int,
                ),
                state.index() == if start < idx {
                    index_done + spec_text(records[start].0)
                } else {
                    index_done
                },
                spec_join(
                    state.data(),
                    index_done,
                    spec_encode_from(records, start, state.data().len()),
                ) == spec_encode(records),
                state.bits() == spec_bloom_of(records, idx as int),
                forall|i: int| 0 <= i < idx ==> record_fits(#[trigger] records[i]),
            decreases n - idx,
        {
            let entry = &entries[idx];
            assert(entry@ == records[idx as int]);
            let ghost data = state.data();
            let size = state.push_entry(entry);
            proof {
                lemma_record_len(records[idx as int]);
                lemma_records_bytes_last(records, start, idx + 1);
                lemma_bloom_of_step(records, idx as int);
                if start < idx {
                    lemma_block_extra_step(records, start, idx as int);
                }
            }
            if size >= BLOCK_THRESHOLD || idx == n - 1 {
                proof {
                    lemma_block_extra_stop(records, start, idx + 1);
                    if spec_pack(state.block()) is None {
                        lemma_encode_fail(records, start, idx + 1, data, index_done);
                    } else {
                        lemma_encode_step(
                            records,
                            start,
                            idx + 1,
                            data,
                            index_done,
                            spec_pack(state.block()).unwrap(),
                        );
                    }
                }
                match state.close_block() {
                    Ok(()) => {},
                    Err(e) => {
                        return Err(e);
                    },
                }
                proof {
                    let done = index_done + spec_index_record(records[start].0, data.len() as u64);
                    assert(state.index() =~= done);
                    index_done = done;
                    start = idx + 1;
                    lemma_records_bytes_last(records, start, start + 1);
                }
            }
            idx += 1;
        }
        proof {
            lemma_encode_done(records, state.data(), index_done);
            if self.wf() {
                self.0.lemma_view();
                lemma_round_trip(records);
            }
        }
        Ok(state.finish())
    }
}

} // verus!
