use baumdb::deserialization::read_key_offset;
use baumdb::deserialization::read_key_value;
use baumdb::deserialization::ByteCursor;
use baumdb::deserialization::KeyOffset;
use baumdb::encoding::compare_bytes;
use baumdb::encoding::compare_keys;
use baumdb::encoding::push_u64;
use baumdb::encoding::u64_to_be;
use baumdb::encoding::KeyOrder;
use baumdb::error::DbError;
use baumdb::memtable::KeyValue;
use baumdb::memtable::MemTable;
use baumdb::memtable::MemValue;
use baumdb::serialization::encode_record;
use baumdb::serialization::push_text;
use baumdb::sst_reader::block_length;
use baumdb::sst_reader::find_block_offset;
use baumdb::sst_reader::find_in_block;
use baumdb::sst_reader::parse_index;
use baumdb::sst_reader::scan_block;

#[test]
fn read_value_works_for_deleted_key() {
    let key = "foo";
    let value = MemValue::Delete;

    let mut bytes = vec![];
    bytes.extend(key.len().to_be_bytes());
    bytes.extend(key.as_bytes());
    // Delete is encoded as 0
    bytes.push(0);

    let mut cursor = ByteCursor::new(bytes);
    let KeyValue {
        key: extracted_key,
        value: extracted_value,
    } = read_key_value(&mut cursor).unwrap();
    assert_eq!(&extracted_key, key);
    assert_eq!(extracted_value, value);
}

#[test]
fn read_value_works_for_put_key() {
    let key = "foo";
    let value_inner = "bar".to_string();
    let value = MemValue::Put(value_inner.clone());

    let mut bytes = vec![];
    bytes.extend(key.len().to_be_bytes());
    bytes.extend(key.as_bytes());
    // Put is encoded as 1
    bytes.push(1);
    bytes.extend(value_inner.len().to_be_bytes());
    bytes.extend(value_inner.as_bytes());

    let mut cursor = ByteCursor::new(bytes);
    let KeyValue {
        key: extracted_key,
        value: extracted_value,
    } = read_key_value(&mut cursor).unwrap();
    assert_eq!(&extracted_key, key);
    assert_eq!(extracted_value, value);
}

fn text_bytes(text: &str) -> Vec<u8> {
    let mut bytes = (text.len() as u64).to_be_bytes().to_vec();
    bytes.extend(text.as_bytes());
    bytes
}

fn table_of(entries: &[(&str, Option<&str>)]) -> MemTable {
    let mut table = MemTable::new();
    for (key, value) in entries {
        match value {
            Some(value) => table.put(key.to_string(), value.to_string()),
            None => table.delete(key),
        }
    }
    table
}

fn entries_of(table: MemTable) -> Vec<KeyValue> {
    table.into_inner().into_entries()
}

#[test]
fn u64_to_be_gives_the_bytes_from_the_most_significant_down() {
    assert_eq!(u64_to_be(0), [0; 8]);
    assert_eq!(u64_to_be(1), [0, 0, 0, 0, 0, 0, 0, 1]);
    assert_eq!(u64_to_be(0x0102030405060708), [1, 2, 3, 4, 5, 6, 7, 8]);
    assert_eq!(u64_to_be(u64::MAX), [255; 8]);
    for n in [0u64, 255, 256, 65535, 1 << 32, 0xdead_beef_0bad_f00d, u64::MAX - 1] {
        assert_eq!(u64_to_be(n), n.to_be_bytes());
    }
}

#[test]
fn push_u64_writes_most_significant_byte_first() {
    let mut out = vec![9u8];
    push_u64(&mut out, 0x0102030405060708);
    assert_eq!(out, vec![9, 1, 2, 3, 4, 5, 6, 7, 8]);
}

#[test]
fn record_of_a_value_has_key_kind_and_value() {
    let mut out = Vec::new();
    encode_record(&mut out, "foo", &MemValue::Put("bar".to_string()));
    let mut expected = vec![0, 0, 0, 0, 0, 0, 0, 3, b'f', b'o', b'o', 1];
    expected.extend([0, 0, 0, 0, 0, 0, 0, 3, b'b', b'a', b'r']);
    assert_eq!(out, expected);
}

#[test]
fn record_of_a_tombstone_ends_with_kind_zero() {
    let mut out = Vec::new();
    encode_record(&mut out, "foo", &MemValue::Delete);
    assert_eq!(out, vec![0, 0, 0, 0, 0, 0, 0, 3, b'f', b'o', b'o', 0]);
}

#[test]
fn text_length_counts_bytes_not_characters() {
    let mut out = Vec::new();
    push_text(&mut out, "é");
    assert_eq!(out, vec![0, 0, 0, 0, 0, 0, 0, 2, 0xc3, 0xa9]);
}

#[test]
fn read_key_value_advances_past_the_record() {
    let mut bytes = Vec::new();
    encode_record(&mut bytes, "a", &MemValue::Put("1".to_string()));
    encode_record(&mut bytes, "b", &MemValue::Delete);
    let first_len = 8 + 1 + 1 + 8 + 1;
    let mut cursor = ByteCursor::new(bytes);
    let first = read_key_value(&mut cursor).unwrap();
    assert_eq!(first, KeyValue { key: "a".to_string(), value: MemValue::Put("1".to_string()) });
    assert_eq!(cursor.position(), first_len);
    let second = read_key_value(&mut cursor).unwrap();
    assert_eq!(second, KeyValue { key: "b".to_string(), value: MemValue::Delete });
    assert!(!cursor.has_remaining());
    assert_eq!(read_key_value(&mut cursor), Err(DbError::Decode));
}

#[test]
fn unknown_kind_byte_is_a_decode_error() {
    let mut bytes = text_bytes("foo");
    bytes.push(2);
    let mut cursor = ByteCursor::new(bytes);
    assert_eq!(read_key_value(&mut cursor), Err(DbError::Decode));
    assert_eq!(cursor.position(), 0);
}

#[test]
fn truncated_record_is_a_decode_error() {
    let mut bytes = text_bytes("foo");
    bytes.push(1);
    bytes.extend([0, 0, 0, 0, 0, 0, 0, 5, b'b', b'a']);
    let mut cursor = ByteCursor::new(bytes);
    assert_eq!(read_key_value(&mut cursor), Err(DbError::Decode));
    assert_eq!(cursor.position(), 0);

    let mut short = ByteCursor::new(vec![0, 0, 0]);
    assert_eq!(read_key_value(&mut short), Err(DbError::Decode));

    let mut no_kind = ByteCursor::new(text_bytes("foo"));
    assert_eq!(read_key_value(&mut no_kind), Err(DbError::Decode));
}

#[test]
fn length_prefix_beyond_the_bytes_is_a_decode_error() {
    let mut bytes = u64::MAX.to_be_bytes().to_vec();
    bytes.extend(b"foo");
    let mut cursor = ByteCursor::new(bytes);
    assert_eq!(read_key_value(&mut cursor), Err(DbError::Decode));
}

#[test]
fn key_that_is_not_utf8_is_a_decode_error() {
    let mut bytes = vec![0, 0, 0, 0, 0, 0, 0, 2, 0xff, 0xfe];
    bytes.push(0);
    let mut cursor = ByteCursor::new(bytes);
    assert_eq!(read_key_value(&mut cursor), Err(DbError::Decode));
}

#[test]
fn read_key_offset_reads_key_and_offset() {
    let mut bytes = text_bytes("key");
    bytes.extend(4242u64.to_be_bytes());
    bytes.extend(text_bytes("next"));
    let mut cursor = ByteCursor::new(bytes);
    let entry = read_key_offset(&mut cursor).unwrap();
    assert_eq!(entry, KeyOffset { key: "key".to_string(), offset: 4242 });
    assert_eq!(cursor.position(), 8 + 3 + 8);
    assert_eq!(read_key_offset(&mut cursor), Err(DbError::Decode));
    assert_eq!(cursor.position(), 8 + 3 + 8);
}

#[test]
fn cursor_reads_numbers_and_bytes() {
    let mut cursor = ByteCursor::new(vec![7, 0, 0, 0, 0, 0, 0, 1, 0, 5, 6]);
    assert!(cursor.has_remaining());
    assert_eq!(cursor.read_u8(), Ok(7));
    assert_eq!(cursor.read_u64(), Ok(256));
    assert_eq!(cursor.read_bytes(3), Err(DbError::Decode));
    assert_eq!(cursor.read_bytes(2), Ok(vec![5, 6]));
    assert!(!cursor.has_remaining());
    assert_eq!(cursor.read_u8(), Err(DbError::Decode));
    assert_eq!(cursor.read_u64(), Err(DbError::Decode));
    assert_eq!(cursor.read_text(), Err(DbError::Decode));
}

#[test]
fn empty_table_serializes_to_empty_files() {
    let out = MemTable::new().serialize().unwrap();
    assert!(out.main_data.is_empty());
    assert!(out.offsets.is_empty());
    let bloom = out.bloom_filter.into_bytes();
    assert_eq!(bloom.len(), 65537);
    assert!(bloom[..65536].iter().all(|b| *b == 0));
    assert_eq!(bloom[65536], 5);
}

#[test]
fn small_table_is_one_framed_gzip_block() {
    let table = table_of(&[("b", Some("2")), ("a", Some("1")), ("c", None)]);
    let out = table.serialize().unwrap();
    let framed = u64::from_be_bytes(out.main_data[..8].try_into().unwrap());
    assert_eq!(framed as usize, out.main_data.len() - 8);
    // A gzip stream starts with its magic number and the deflate method.
    assert_eq!(&out.main_data[8..11], &[0x1f, 0x8b, 8]);
    let mut index = text_bytes("a");
    index.extend(0u64.to_be_bytes());
    assert_eq!(out.offsets, index);
}

#[test]
fn block_unpacks_to_the_records_in_key_order() {
    let table = table_of(&[("b", Some("2")), ("a", Some("1")), ("c", None)]);
    let out = table.serialize().unwrap();
    let mut records = Vec::new();
    encode_record(&mut records, "a", &MemValue::Put("1".to_string()));
    encode_record(&mut records, "b", &MemValue::Put("2".to_string()));
    encode_record(&mut records, "c", &MemValue::Delete);
    assert_ne!(&out.main_data[8..], &records[..]);
    assert_eq!(find_in_block(&out.main_data[8..], "a"), Ok(Some(MemValue::Put("1".to_string()))));
    assert_eq!(find_in_block(&out.main_data[8..], "c"), Ok(Some(MemValue::Delete)));
    assert_eq!(find_in_block(&out.main_data[8..], "d"), Ok(None));
    assert_eq!(scan_block(records.clone(), "b"), Some(MemValue::Put("2".to_string())));
    assert_eq!(scan_block(records, "bb"), None);
}

#[test]
fn block_that_is_no_gzip_stream_is_a_decode_error() {
    let mut records = Vec::new();
    encode_record(&mut records, "a", &MemValue::Put("1".to_string()));
    assert_eq!(find_in_block(&records, "a"), Err(DbError::Decode));
}

#[test]
fn blocks_close_at_the_threshold() {
    let big = "x".repeat(3000);
    let table = table_of(&[
        ("a", Some(&big)),
        ("b", Some(&big)),
        ("c", Some(&big)),
        ("d", Some(&big)),
        ("e", Some(&big)),
    ]);
    let out = table.serialize().unwrap();
    // Two records pass the threshold, so the blocks hold a-b, c-d and e.
    let entries = parse_index(out.offsets.clone());
    assert_eq!(entries.len(), 3);
    assert_eq!(entries[0].key, "a");
    assert_eq!(entries[1].key, "c");
    assert_eq!(entries[2].key, "e");
    assert_eq!(entries[0].offset, 0);
    let first = u64::from_be_bytes(out.main_data[..8].try_into().unwrap());
    assert_eq!(entries[1].offset, 8 + first);
    let at = entries[1].offset as usize;
    let second = u64::from_be_bytes(out.main_data[at..at + 8].try_into().unwrap());
    assert_eq!(entries[2].offset, entries[1].offset + 8 + second);
    let at = entries[2].offset as usize;
    let third = block_length(&out.main_data[at..at + 8]).unwrap();
    assert_eq!(at + 8 + third as usize, out.main_data.len());
    assert_eq!(
        find_in_block(&out.main_data[at + 8..], "e"),
        Ok(Some(MemValue::Put(big.clone())))
    );
}

#[test]
fn a_record_that_reaches_the_threshold_alone_closes_its_block() {
    let exact = "y".repeat(4096 - 8 - 1 - 1 - 8);
    let table = table_of(&[("a", Some(&exact)), ("b", Some("1"))]);
    let out = table.serialize().unwrap();
    let entries = parse_index(out.offsets);
    assert_eq!(entries.len(), 2);

    let under = "y".repeat(4096 - 8 - 1 - 1 - 8 - 1);
    let table = table_of(&[("a", Some(&under)), ("b", Some("1"))]);
    let out = table.serialize().unwrap();
    let entries = parse_index(out.offsets);
    assert_eq!(entries.len(), 1);
}

#[test]
fn written_table_reads_back_equal() {
    let big = "z".repeat(5000);
    let table = table_of(&[
        ("delta", None),
        ("alpha", Some("1")),
        ("charlie", Some(&big)),
        ("bravo", Some("")),
        ("écho", Some("ü")),
    ]);
    let expected = entries_of(table.clone());
    let out = table.serialize().unwrap();
    let back = MemTable::try_from_bytes(out.main_data).unwrap();
    assert_eq!(entries_of(back), expected);
}

#[test]
fn later_record_of_a_key_replaces_the_earlier_one_on_reading() {
    let first = table_of(&[("a", Some("old")), ("b", Some("kept"))]).serialize().unwrap();
    let second = table_of(&[("a", None)]).serialize().unwrap();
    let mut data = first.main_data;
    data.extend(second.main_data);
    let table = MemTable::try_from_bytes(data).unwrap();
    assert_eq!(
        entries_of(table),
        vec![
            KeyValue { key: "a".to_string(), value: MemValue::Delete },
            KeyValue { key: "b".to_string(), value: MemValue::Put("kept".to_string()) },
        ]
    );
}

#[test]
fn data_file_with_a_broken_frame_is_a_decode_error() {
    let out = table_of(&[("a", Some("1"))]).serialize().unwrap();
    let mut cut = out.main_data.clone();
    cut.pop();
    assert_eq!(MemTable::try_from_bytes(cut).err(), Some(DbError::Decode));
    assert_eq!(MemTable::try_from_bytes(vec![0, 0, 1]).err(), Some(DbError::Decode));
    let mut garbage = 3u64.to_be_bytes().to_vec();
    garbage.extend([1, 2, 3]);
    assert_eq!(MemTable::try_from_bytes(garbage).err(), Some(DbError::Decode));
    assert_eq!(MemTable::try_from_bytes(Vec::new()).unwrap().len(), 0);
}

#[test]
fn index_picks_the_last_block_that_starts_at_or_before_the_key() {
    let mut index = Vec::new();
    for (key, offset) in [("b", 0u64), ("f", 100), ("m", 250)] {
        index.extend(text_bytes(key));
        index.extend(offset.to_be_bytes());
    }
    assert_eq!(find_block_offset(index.clone(), "b"), Some(0));
    assert_eq!(find_block_offset(index.clone(), "c"), Some(0));
    assert_eq!(find_block_offset(index.clone(), "f"), Some(100));
    assert_eq!(find_block_offset(index.clone(), "g"), Some(100));
    assert_eq!(find_block_offset(index.clone(), "m"), Some(250));
    assert_eq!(find_block_offset(index.clone(), "zzz"), Some(250));
    // A key before every block falls back to the first block.
    assert_eq!(find_block_offset(index.clone(), "a"), Some(0));
    assert_eq!(find_block_offset(Vec::new(), "a"), None);
    // What follows the last whole entry is not read.
    index.extend([0, 0, 0]);
    assert_eq!(parse_index(index).len(), 3);
}

#[test]
fn block_length_needs_eight_bytes() {
    assert_eq!(block_length(&[0, 0, 0, 0, 0, 0, 1, 2, 99]), Ok(258));
    assert_eq!(block_length(&[0, 0, 0, 0, 0, 0, 1]), Err(DbError::Decode));
}

#[test]
fn keys_are_ordered_by_their_bytes() {
    assert_eq!(compare_keys("a", "b"), KeyOrder::Less);
    assert_eq!(compare_keys("b", "a"), KeyOrder::Greater);
    assert_eq!(compare_keys("abc", "abc"), KeyOrder::Equal);
    assert_eq!(compare_keys("ab", "abc"), KeyOrder::Less);
    assert_eq!(compare_keys("", "a"), KeyOrder::Less);
    assert_eq!(compare_keys("10", "9"), KeyOrder::Less);
    assert_eq!(compare_keys("Z", "a"), KeyOrder::Less);
    assert_eq!(compare_keys("z", "é"), KeyOrder::Less);
    assert_eq!(compare_bytes(&[1, 255], &[2]), KeyOrder::Less);
    assert_eq!(compare_bytes(&[], &[]), KeyOrder::Equal);
}
