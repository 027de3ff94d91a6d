use baumdb::memtable::memtable_get_inner;
use baumdb::memtable::KeyValue;
use baumdb::memtable::MemTable;
use baumdb::memtable::MemTableBase;
use baumdb::memtable::MemTableReadOnly;
use baumdb::memtable::MemValue;

fn keys_of(table: &MemTable) -> Vec<String> {
    table.clone().into_inner().into_entries().into_iter().map(|e| e.key).collect()
}

#[test]
fn get_returns_the_last_put() {
    let mut table = MemTable::new();
    assert_eq!(table.get("a"), None);
    table.put("a".to_string(), "1".to_string());
    assert_eq!(table.get("a"), Some("1".to_string()));
    table.put("a".to_string(), "2".to_string());
    assert_eq!(table.get("a"), Some("2".to_string()));
    assert_eq!(table.len(), 1);
}

#[test]
fn delete_leaves_a_tombstone() {
    let mut table = MemTable::new();
    table.put("a".to_string(), "1".to_string());
    table.delete("a");
    assert_eq!(table.get("a"), None);
    assert_eq!(table.slot("a"), Some(&MemValue::Delete));
    assert_eq!(table.len(), 1);
    // A key that was never put gets its tombstone too.
    table.delete("never");
    assert_eq!(table.slot("never"), Some(&MemValue::Delete));
    assert_eq!(table.slot("absent"), None);
    assert_eq!(table.len(), 2);
    table.put("a".to_string(), "3".to_string());
    assert_eq!(table.get("a"), Some("3".to_string()));
}

#[test]
fn entries_are_walked_in_byte_order() {
    let mut table = MemTable::new();
    for key in ["b", "10", "a", "9", "é", "ab", "", "B", "z"] {
        table.put(key.to_string(), key.to_uppercase());
    }
    let mut expected: Vec<String> =
        ["b", "10", "a", "9", "é", "ab", "", "B", "z"].iter().map(|k| k.to_string()).collect();
    expected.sort();
    assert_eq!(keys_of(&table), expected);
    assert_eq!(table.len(), 9);
}

#[test]
fn many_keys_stay_sorted_and_readable() {
    let mut table = MemTable::new();
    for i in 0..2000u32 {
        let key = (i.wrapping_mul(2654435761) % 5000).to_string();
        table.put(key, i.to_string());
    }
    let keys = keys_of(&table);
    assert!(keys.windows(2).all(|w| w[0] < w[1]));
    let mut last = std::collections::HashMap::new();
    for i in 0..2000u32 {
        last.insert((i.wrapping_mul(2654435761) % 5000).to_string(), i.to_string());
    }
    assert_eq!(keys.len(), last.len());
    for (key, value) in &last {
        assert_eq!(table.get(key).as_ref(), Some(value));
    }
    assert_eq!(table.get("5000"), None);
}

#[test]
fn ordered_map_inserts_replaces_and_removes() {
    let mut map = MemTableBase::new();
    assert!(map.is_empty());
    map.insert("k".to_string(), MemValue::Put("v".to_string()));
    map.insert("a".to_string(), MemValue::Delete);
    assert_eq!(map.len(), 2);
    assert_eq!(map.entry(0), &KeyValue { key: "a".to_string(), value: MemValue::Delete });
    assert_eq!(map.get("k"), Some(&MemValue::Put("v".to_string())));
    assert_eq!(memtable_get_inner(&map, "k"), Some("v".to_string()));
    assert_eq!(memtable_get_inner(&map, "a"), None);
    assert_eq!(memtable_get_inner(&map, "missing"), None);
    map.remove("missing");
    assert_eq!(map.len(), 2);
    map.remove("a");
    assert_eq!(map.get("a"), None);
    assert_eq!(map.len(), 1);
    map.remove("k");
    assert!(map.is_empty());
}

#[test]
fn frozen_table_reads_what_the_table_held() {
    let mut table = MemTable::new();
    table.put("a".to_string(), "1".to_string());
    table.delete("b");
    let frozen = MemTableReadOnly::from(table.clone());
    assert_eq!(frozen.get("a"), Some("1".to_string()));
    assert_eq!(frozen.get("b"), None);
    assert_eq!(frozen.slot("b"), Some(&MemValue::Delete));
    assert_eq!(frozen.slot("c"), None);
    let again = MemTable::from(table.clone().into_inner());
    assert_eq!(again.get("a"), Some("1".to_string()));
    assert_eq!(MemTable::default().len(), 0);
    assert_eq!(frozen.clone().get("a"), Some("1".to_string()));
}
