//! Reading the file layout back: a cursor over bytes, the records of a
//! block, the records of the index, and a whole data file into a table.
use crate::encoding::read_be_u64;
use crate::encoding::spec_be_u64;
use crate::encoding::string_from_utf8;
use crate::error::DbError;
use crate::memtable::KeyValue;
use crate::memtable::MemTable;
use crate::memtable::MemTableBase;
use crate::memtable::MemValue;
use crate::memtable::Record;
use crate::memtable::Slot;
use crate::serialization::gunzip_bytes;
use crate::serialization::KIND_PUT;
use crate::serialization::KIND_TOMBSTONE;
use bytes::Buf;
use flate2::read::GzDecoder;
use std::io::Read;
use vstd::prelude::*;
use vstd::slice::slice_subrange;
use vstd::slice::slice_to_vec;
use vstd::utf8::decode_utf8;
use vstd::utf8::valid_utf8;

verus! {

/// A key with the place of its block in the data file.
#[derive(Debug, PartialEq, Eq)]
pub struct KeyOffset {
    pub key: String,
    pub offset: u64,
}

impl View for KeyOffset {
    type V = (Seq<char>, u64);

    open spec fn view(&self) -> (Seq<char>, u64) {
        (self.key@, self.offset)
    }
}

/// The text at the head of `b` and the number of bytes that it takes: a
/// 64-bit length, then that many bytes of UTF-8.
pub open spec fn spec_parse_text(b: Seq<u8>) -> Option<(Seq<char>, int)> {
    if b.len() < 8 {
        None
    } else {
        let n = spec_be_u64(b) as int;
        if b.len() - 8 < n {
            None
        } else if valid_utf8(b.subrange(8, 8 + n)) {
            Some((decode_utf8(b.subrange(8, 8 + n)), 8 + n))
        } else {
            None
        }
    }
}

/// The record at the head of `b` and the number of bytes that it takes.
pub open spec fn spec_parse_record(b: Seq<u8>) -> Option<(Record, int)> {
    match spec_parse_text(b) {
        None => None,
        Some((key, n)) => if b.len() <= n {
            None
        } else if b[n] == KIND_TOMBSTONE {
            Some(((key, Slot::Tombstone), n + 1))
        } else if b[n] == KIND_PUT {
            match spec_parse_text(b.skip(n + 1)) {
                None => None,
                Some((value, m)) => Some(((key, Slot::Put(value)), n + 1 + m)),
            }
        } else {
            None
        },
    }
}

/// The index record at the head of `b` and the number of bytes that it
/// takes.
pub open spec fn spec_parse_index_record(b: Seq<u8>) -> Option<((Seq<char>, u64), int)> {
    match spec_parse_text(b) {
        None => None,
        Some((key, n)) => if b.len() - n < 8 {
            None
        } else {
            Some(((key, spec_be_u64(b.skip(n))), n + 8))
        },
    }
}

/// The map after the records at the head of `raw` were put into `acc` one
/// after another, up to the first place that holds no record.
pub open spec fn spec_insert_records(raw: Seq<u8>, acc: Map<Seq<char>, Slot>) -> Map<
    Seq<char>,
    Slot,
>
    decreases raw.len(),
{
    match spec_parse_record(raw) {
        Some((record, n)) => spec_insert_records(raw.skip(n), acc.insert(record.0, record.1)),
        None => acc,
    }
}

/// The map after the records of every block of `data` were put into `acc`.
/// Nothing where a frame is cut short or a block does not unpack.
pub open spec fn spec_decode_blocks(data: Seq<u8>, acc: Map<Seq<char>, Slot>) -> Option<
    Map<Seq<char>, Slot>,
>
    decreases data.len(),
{
    if data.len() == 0 {
        Some(acc)
    } else if data.len() < 8 {
        None
    } else {
        let n = spec_be_u64(data) as int;
        if data.len() - 8 < n {
            None
        } else {
            match gunzip_bytes(data.subrange(8, 8 + n)) {
                None => None,
                Some(raw) => spec_decode_blocks(data.skip(8 + n), spec_insert_records(raw, acc)),
            }
        }
    }
}

/// The table that a data file holds.
pub open spec fn spec_decode_table(data: Seq<u8>) -> Option<Map<Seq<char>, Slot>> {
    spec_decode_blocks(data, Map::empty())
}

/// Feeds `packed` to a `flate2::read::GzDecoder` and reads it to the end.
/// The claim: what comes out, or that the stream is refused, depends on
/// `packed` alone.
#[verifier::external_body]
pub(crate) fn gzip_decode(packed: &[u8]) -> (out: Option<Vec<u8>>)
    ensures
        out matches Some(raw) ==> gunzip_bytes(packed@) == Some(raw@),
        out is None ==> gunzip_bytes(packed@) is None,
{
    let mut decoder = GzDecoder::new(packed);
    let mut raw = Vec::with_capacity(packed.len());
    decoder.read_to_end(&mut raw).ok()?;
    Some(raw)
}

/// Calls `bytes::Buf::has_remaining` on a byte slice, which says whether
/// the slice holds a byte.
#[verifier::external_body]
pub(crate) fn slice_has_remaining(rest: &[u8]) -> (b: bool)
    ensures
        b == (rest@.len() > 0),
{
    rest.has_remaining()
}

/// Bytes with a place up to which they have been read.
#[derive(Debug)]
pub struct ByteCursor {
    bytes: Vec<u8>,
    pos: usize,
}

impl ByteCursor {
    /// All the bytes.
    pub closed spec fn bytes(&self) -> Seq<u8> {
        self.bytes@
    }

    /// The number of bytes read so far.
    pub closed spec fn pos(&self) -> nat {
        self.pos as nat
    }

    /// The place lies inside the bytes, or at their end.
    pub closed spec fn wf(&self) -> bool {
        self.pos <= self.bytes@.len()
    }

    /// The bytes not read yet.
    pub open spec fn rest(&self) -> Seq<u8> {
        self.bytes().skip(self.pos() as int)
    }

    /// A cursor at the start of `bytes`.
    pub fn new(bytes: Vec<u8>) -> (r: Self)
        ensures
            r.wf(),
            r.bytes() == bytes@,
            r.pos() == 0,
            r.rest() == bytes@,
    {
        let r = ByteCursor { bytes, pos: 0 };
        assert(r.rest() =~= bytes@);
        r
    }

    /// The number of bytes read so far.
    pub fn position(&self) -> (p: usize)
        ensures
            p == self.pos(),
    {
        self.pos
    }

    /// Whether a byte is left.
    pub fn has_remaining(&self) -> (b: bool)
        requires
            self.wf(),
        ensures
            b == (self.rest().len() > 0),
    {
        slice_has_remaining(slice_subrange(self.bytes.as_slice(), self.pos, self.bytes.len()))
    }

    /// Moves to place `pos`.
    fn rewind(&mut self, pos: usize)
        requires
            pos <= old(self).bytes().len(),
        ensures
            final(self).wf(),
            final(self).bytes() == old(self).bytes(),
            final(self).pos() == pos,
    {
        self.pos = pos;
    }

    /// Reads one byte.
    pub fn read_u8(&mut self) -> (r: Result<u8, DbError>)
        requires
            old(self).wf(),
        ensures
            final(self).wf(),
            final(self).bytes() == old(self).bytes(),
            match r {
                Ok(b) => old(self).rest().len() >= 1 && b == old(self).rest()[0] && final(self).pos() == old(self).pos() + 1,
                Err(e) => e == DbError::Decode && old(self).rest().len() == 0 && final(self).pos()
                    == old(self).pos(),
            },
    {
        if self.pos >= self.bytes.len() {
            return Err(DbError::Decode);
        }
        let b = self.bytes[self.pos];
        self.pos = self.pos + 1;
        Ok(b)
    }

    /// Reads a 64-bit number, most significant byte first.
    pub fn read_u64(&mut self) -> (r: Result<u64, DbError>)
        requires
            old(self).wf(),
        ensures
            final(self).wf(),
            final(self).bytes() == old(self).bytes(),
            match r {
                Ok(n) => old(self).rest().len() >= 8 && n == spec_be_u64(old(self).rest())
                    && final(self).pos() == old(self).pos() + 8,
                Err(e) => e == DbError::Decode && old(self).rest().len() < 8 && final(self).pos()
                    == old(self).pos(),
            },
    {
        if self.bytes.len() - self.pos < 8 {
            return Err(DbError::Decode);
        }
        let head = slice_subrange(self.bytes.as_slice(), self.pos, self.pos + 8);
        let n = read_be_u64(head);
        proof {
            let rest = self.rest();
            assert(head@[0] == rest[0] && head@[1] == rest[1] && head@[2] == rest[2] && head@[3]
                == rest[3] && head@[4] == rest[4] && head@[5] == rest[5] && head@[6] == rest[6]
                && head@[7] == rest[7]);
        }
        self.pos = self.pos + 8;
        Ok(n)
    }

    /// Reads the next `n` bytes.
    pub fn read_bytes(&mut self, n: u64) -> (r: Result<Vec<u8>, DbError>)
        requires
            old(self).wf(),
        ensures
            final(self).wf(),
            final(self).bytes() == old(self).bytes(),
            match r {
                Ok(v) => old(self).rest().len() >= n && v@ == old(self).rest().subrange(
                    0,
                    n as int,
                ) && final(self).pos() == old(self).pos() + n,
                Err(e) => e == DbError::Decode && old(self).rest().len() < n && final(self).pos()
                    == old(self).pos(),
            },
    {
        let left: usize = self.bytes.len() - self.pos;
        if (left as u64) < n {
            return Err(DbError::Decode);
        }
        let count: usize = n as usize;
        let part = slice_subrange(self.bytes.as_slice(), self.pos, self.pos + count);
        let v = slice_to_vec(part);
        assert(v@ =~= self.rest().subrange(0, n as int));
        self.pos = self.pos + count;
        Ok(v)
    }

    /// Reads a text: its length in bytes, then the bytes, which must be
    /// UTF-8. Where there is none, the cursor stays.
    pub fn read_text(&mut self) -> (r: Result<String, DbError>)
        requires
            old(self).wf(),
        ensures
            final(self).wf(),
            final(self).bytes() == old(self).bytes(),
            match spec_parse_text(old(self).rest()) {
                Some((text, n)) => r matches Ok(s) && s@ == text && final(self).pos() == old(self).pos() + n,
                None => r matches Err(e) && e == DbError::Decode && final(self).pos() == old(self).pos(),
            },
    {
        let start: usize = self.pos;
        let ghost rest = self.rest();
        let n = match self.read_u64() {
            Ok(n) => n,
            Err(e) => {
                return Err(e);
            },
        };
        let raw = match self.read_bytes(n) {
            Ok(raw) => raw,
            Err(e) => {
                self.rewind(start);
                return Err(e);
            },
        };
        assert(raw@ =~= rest.subrange(8, 8 + n)) by {
            assert(self.bytes().skip(start + 8) =~= rest.skip(8));
        }
        match string_from_utf8(raw) {
            Some(s) => Ok(s),
            None => {
                self.rewind(start);
                Err(DbError::Decode)
            },
        }
    }
}

/// Reads the record at the cursor. Where there is none, the cursor stays.
pub fn read_key_value(reader: &mut ByteCursor) -> (r: Result<KeyValue, DbError>)
    requires
        old(reader).wf(),
    ensures
        final(reader).wf(),
        final(reader).bytes() == old(reader).bytes(),
        match spec_parse_record(old(reader).rest()) {
            Some((record, n)) => r matches Ok(kv) && kv@ == record && final(reader).pos() == old(reader).pos() + n
                && final(reader).rest() == old(reader).rest().skip(n),
            None => r matches Err(e) && e == DbError::Decode && final(reader).pos() == old(reader).pos(),
        },
{
    let start: usize = reader.position();
    let ghost rest = reader.rest();
    let key = match reader.read_text() {
        Ok(key) => key,
        Err(e) => {
            return Err(e);
        },
    };
    let ghost n = spec_parse_text(rest).unwrap().1;
    let kind = match reader.read_u8() {
        Ok(kind) => kind,
        Err(e) => {
            proof {
                assert(reader.rest().len() == rest.len() - n);
            }
            reader.rewind(start);
            return Err(e);
        },
    };
    assert(kind == rest[n]) by {
        assert(reader.bytes().skip(start + n)[0] == rest[n]);
    }
    if kind == KIND_TOMBSTONE {
        assert(reader.rest() =~= rest.skip(n + 1));
        Ok(KeyValue { key, value: MemValue::Delete })
    } else if kind == KIND_PUT {
        assert(reader.rest() =~= rest.skip(n + 1));
        match reader.read_text() {
            Ok(value) => {
                proof {
                    let m = spec_parse_text(rest.skip(n + 1)).unwrap().1;
                    assert(reader.rest() =~= rest.skip(n + 1 + m));
                }
                Ok(KeyValue { key, value: MemValue::Put(value) })
            },
            Err(e) => {
                reader.rewind(start);
                Err(e)
            },
        }
    } else {
        reader.rewind(start);
        Err(DbError::Decode)
    }
}

/// Reads the index record at the cursor. Where there is none, the cursor
/// stays.
pub fn read_key_offset(buffer: &mut ByteCursor) -> (r: Result<KeyOffset, DbError>)
    requires
        old(buffer).wf(),
    ensures
        final(buffer).wf(),
        final(buffer).bytes() == old(buffer).bytes(),
        match spec_parse_index_record(old(buffer).rest()) {
            Some((entry, n)) => r matches Ok(ko) && ko@ == entry && final(buffer).pos() == old(buffer).pos() + n
                && final(buffer).rest() == old(buffer).rest().skip(n),
            None => r matches Err(e) && e == DbError::Decode && final(buffer).pos() == old(buffer).pos(),
        },
{
    let start: usize = buffer.position();
    let ghost rest = buffer.rest();
    let key = match buffer.read_text() {
        Ok(key) => key,
        Err(e) => {
            return Err(e);
        },
    };
    let ghost n = spec_parse_text(rest).unwrap().1;
    assert(buffer.rest() =~= rest.skip(n));
    match buffer.read_u64() {
        Ok(offset) => {
            assert(buffer.rest() =~= rest.skip(n + 8));
            Ok(KeyOffset { key, offset })
        },
        Err(e) => {
            buffer.rewind(start);
            Err(e)
        },
    }
}

impl MemTable {
    /// Builds the table that a data file holds: every block is unpacked and
    /// its records are put into the table in the order of the file, a later
    /// record of a key in place of an earlier one. In a block, reading stops
    /// at the first place that holds no record. A frame that is cut short or
    /// a block that does not unpack is an error.
    pub fn try_from_bytes(bytes: Vec<u8>) -> (r: Result<MemTable, DbError>)
        ensures
            match spec_decode_table(bytes@) {
                Some(table) => r matches Ok(t) && t.wf() && t@ == table,
                None => r matches Err(e) && e == DbError::Decode,
            },
    {
        let mut cursor = ByteCursor::new(bytes);
        let mut table = MemTableBase::new();
        while cursor.has_remaining()
            invariant
                cursor.wf(),
                cursor.bytes() == bytes@,
                table.wf(),
                spec_decode_table(bytes@) == spec_decode_blocks(cursor.rest(), table@),
            decreases cursor.rest().len(),
        {
            let ghost data = cursor.rest();
            let n = match cursor.read_u64() {
                Ok(n) => n,
                Err(e) => {
                    return Err(e);
                },
            };
            assert(cursor.rest() =~= data.skip(8));
            let packed = match cursor.read_bytes(n) {
                Ok(packed) => packed,
                Err(e) => {
                    return Err(e);
                },
            };
            assert(packed@ =~= data.subrange(8, 8 + n));
            assert(cursor.rest() =~= data.skip(8 + n));
            let raw = match gzip_decode(packed.as_slice()) {
                Some(raw) => raw,
                None => {
                    return Err(DbError::Decode);
                },
            };
            let mut block = ByteCursor::new(raw);
            let ghost before = table@;
            loop
                invariant
                    block.wf(),
                    table.wf(),
                    spec_insert_records(raw@, before) == spec_insert_records(
                        block.rest(),
                        table@,
                    ),
                ensures
                    table.wf(),
                    table@ == spec_insert_records(raw@, before),
                decreases block.rest().len(),
            {
                let ghost rest = block.rest();
                match read_key_value(&mut block) {
                    Ok(kv) => {
                        proof {
                            let n = spec_parse_record(rest).unwrap().1;
                            assert(block.rest() =~= rest.skip(n));
                        }
                        table.insert(kv.key, kv.value);
                    },
                    Err(_) => {
                        break ;
                    },
                }
            }
        }
        Ok(MemTable(table))
    }
}

} // verus!
