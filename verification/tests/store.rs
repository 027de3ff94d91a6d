use baumdb::db::Answer;
use baumdb::db::BaumDb;
use baumdb::db::BundleSearch;
use baumdb::db::SearchAction;
use baumdb::db::DB;
use baumdb::error::DbError;
use baumdb::file_handling::compaction::merge_data_files;
use baumdb::file_handling::compaction::merge_newer;
use baumdb::file_handling::compaction::CompactionAction;
use baumdb::file_handling::compaction::Compactor;
use baumdb::file_handling::compaction::Stage;
use baumdb::file_handling::file_bundle::FileBundle;
use baumdb::file_handling::file_bundle::FileBundlesLevelled;
use baumdb::file_handling::file_bundle::Level;
use baumdb::file_handling::file_bundle::ShouldCompact;
use baumdb::file_handling::file_bundle::SstFileBundle;
use baumdb::file_handling::file_bundle::FileBundleId;
use baumdb::file_handling::flushing::flush;
use baumdb::file_handling::flushing::flush_with_id;
use baumdb::file_handling::flushing::plan_bundle_with_id;
use baumdb::file_handling::flushing::plan_bundle;
use baumdb::memtable::KeyValue;
use baumdb::memtable::MemTable;
use baumdb::memtable::MemValue;
use std::collections::HashMap;

/// The store with a directory that is held in memory.
struct Store {
    db: BaumDb,
    registry: FileBundlesLevelled,
    files: HashMap<String, Vec<u8>>,
    reads: Vec<String>,
    compacting: bool,
}

impl Store {
    fn new(max_memtable_size: usize) -> Self {
        Store {
            db: BaumDb::new(max_memtable_size),
            registry: FileBundlesLevelled::new(String::new()),
            files: HashMap::new(),
            reads: Vec::new(),
            compacting: true,
        }
    }

    fn create(&mut self, path: &str, bytes: &[u8]) {
        let old = self.files.insert(path.to_string(), bytes.to_vec());
        assert!(old.is_none(), "{path} exists already");
    }

    fn store(&mut self, table: MemTable, level: Level) -> ShouldCompact {
        let plan = flush(table, &mut self.registry, level).unwrap();
        let data = plan.bundle().main_data_file_path().clone();
        let index = plan.bundle().index_file_path().clone();
        let bloom = plan.bundle().bloom_filter_file_path().clone();
        self.create(&data, plan.main_data());
        self.create(&index, plan.offsets());
        self.create(&bloom, plan.bloom());
        plan.commit(&mut self.registry)
    }

    fn delete_files(&mut self, bundles: &[FileBundle]) {
        for bundle in bundles {
            assert!(self.files.remove(bundle.bloom_filter_file_path()).is_some());
            assert!(self.files.remove(bundle.index_file_path()).is_some());
            assert!(self.files.remove(bundle.main_data_file_path()).is_some());
        }
    }

    fn compact(&mut self) {
        let mut run = Compactor::new();
        loop {
            match run.begin(&self.registry).unwrap() {
                CompactionAction::Done => return,
                CompactionAction::Load(names) => {
                    let files = names.iter().map(|n| self.files[n].clone()).collect();
                    match run.merge(&mut self.registry, files).unwrap() {
                        CompactionAction::Write => {
                            let plan = run.output().unwrap();
                            let written = [
                                (plan.bundle().main_data_file_path().clone(), plan.main_data().clone()),
                                (plan.bundle().index_file_path().clone(), plan.offsets().clone()),
                                (plan.bundle().bloom_filter_file_path().clone(), plan.bloom().clone()),
                            ];
                            for (path, bytes) in written {
                                self.create(&path, &bytes);
                            }
                        }
                        CompactionAction::Remove => {}
                        other => panic!("unexpected {other:?}"),
                    }
                    match run.finish(&mut self.registry).unwrap() {
                        CompactionAction::Delete(bundles) => self.delete_files(&bundles),
                        other => panic!("unexpected {other:?}"),
                    }
                }
                other => panic!("unexpected {other:?}"),
            }
        }
    }

    fn after_write(&mut self, full: Option<MemTable>) {
        if let Some(table) = full {
            if self.store(table, Level::L0) == ShouldCompact::Yes && self.compacting {
                self.compact();
            }
        }
    }

    fn put(&mut self, key: &str, value: &str) {
        let full = self.db.put(key.to_string(), value.to_string());
        self.after_write(full);
    }

    fn delete(&mut self, key: &str) {
        let full = self.db.delete(key);
        self.after_write(full);
    }

    fn get(&mut self, key: &str) -> Option<String> {
        match self.db.get(key) {
            Answer::Found(value) => Some(value),
            Answer::Deleted => None,
            Answer::Unknown => self.search(key).unwrap(),
        }
    }

    fn search(&mut self, key: &str) -> Result<Option<String>, DbError> {
        let (mut search, mut action) = BundleSearch::new(key.to_string(), self.registry.iter());
        loop {
            let bytes = match action {
                SearchAction::Answer(answer) => return Ok(answer),
                SearchAction::ReadFile(path) => {
                    self.reads.push(path.clone());
                    self.files[&path].clone()
                }
                SearchAction::ReadAt { path, offset, len } => {
                    self.reads.push(path.clone());
                    let file = &self.files[&path];
                    let from = offset as usize;
                    let to = from + len as usize;
                    assert!(to <= file.len());
                    file[from..to].to_vec()
                }
            };
            action = search.step(bytes)?;
        }
    }

    fn level_names(&self, level: Level) -> Vec<String> {
        self.registry
            .oldest_first(level)
            .iter()
            .map(|b| b.main_data_file_path().clone())
            .collect()
    }

    fn table(&self, name: &str) -> Vec<KeyValue> {
        MemTable::try_from_bytes(self.files[name].clone()).unwrap().into_inner().into_entries()
    }
}

fn put(key: &str, value: &str) -> KeyValue {
    KeyValue { key: key.to_string(), value: MemValue::Put(value.to_string()) }
}

fn tombstone(key: &str) -> KeyValue {
    KeyValue { key: key.to_string(), value: MemValue::Delete }
}

fn data_file(entries: &[KeyValue]) -> Vec<u8> {
    let mut table = MemTable::new();
    for entry in entries {
        match &entry.value {
            MemValue::Put(value) => table.put(entry.key.clone(), value.clone()),
            MemValue::Delete => table.delete(&entry.key),
        }
    }
    table.serialize().unwrap().main_data
}

#[test]
fn test_basic_ops() {
    let mut db = Store::new(2);

    let key = "foo";
    let value = "value";
    db.put(key, value);

    let returned_value = db.get(key);
    assert_eq!(returned_value.as_deref(), Some(value));

    db.delete(key);

    let returned_value = db.get(key);
    assert!(returned_value.is_none());
}

#[test]
fn test_basic_ops_with_many_keys() {
    let mut db = Store::new(2);

    let key_values = vec![
        ("Aa", "1"),
        ("Bbb", "2"),
        ("Cc", "3"),
        ("Ddddd", "3"),
        ("Eeeee", "4"),
    ];
    for (key, value) in key_values.iter() {
        db.put(key, value);
    }

    for (key, value) in key_values.iter() {
        let returned_value = db.get(key);
        assert_eq!(returned_value.as_deref(), Some(*value));
    }

    for (key, _) in key_values.iter() {
        db.delete(key);
    }

    for (key, _) in key_values {
        let returned_value = db.get(key);
        assert!(returned_value.is_none());
    }
}

#[test]
fn test_updating_a_key_works() {
    let mut db = Store::new(128);

    let key = "SomeKey".to_string();
    let value = "1".to_string();

    db.put(&key, &value);
    let returned_value = db.get(&key);
    assert_eq!(returned_value, Some(value));

    // Add some random values into the db to ensure data has been flushed to disk
    for i in 0..1000 {
        db.put(&i.to_string(), "SomeValue");
    }

    let value = "2".to_string();

    db.put(&key, &value);
    // Add some random values into the db to ensure data has been flushed to disk
    for i in 1000..2000 {
        db.put(&i.to_string(), "SomeValue");
    }
    let returned_value = db.get(&key);
    assert_eq!(returned_value, Some(value));
    assert_eq!(db.get("0").as_deref(), Some("SomeValue"));
    assert_eq!(db.get("1999").as_deref(), Some("SomeValue"));
    assert_eq!(db.get("2000"), None);
}

#[test]
fn test_bloom_filter_is_used() {
    let mut db = Store::new(2);
    // The bundles stay in the first level, so that each holds two keys.
    db.compacting = false;

    let key_values = vec![
        ("Aa", "1"),
        ("Bbb", "2"),
        ("Cc", "3"),
        ("Dd", "4"),
        ("Ee", "5"),
        ("Ff", "6"),
        ("Gg", "7"),
        ("Hh", "8"),
    ];
    for (key, value) in key_values.iter() {
        db.put(key, value);
    }
    assert_eq!(db.level_names(Level::L0).len(), 4);
    // The table that was frozen last still answers for its keys.
    assert_eq!(db.get("Gg").as_deref(), Some("7"));
    assert!(db.reads.is_empty());

    assert_eq!(db.get("Aa").as_deref(), Some("1"));

    for idx in 0..4 {
        // Every filter is read, as the key is in the oldest bundle.
        assert!(db.reads.contains(&format!("L0-bloom-{idx}.db")));
        let index = db.reads.contains(&format!("L0-index-{idx}.db"));
        let data = db.reads.contains(&format!("L0-data-{idx}.db"));
        if idx == 0 {
            // Index and data of the bundle that holds the key are read.
            assert!(index);
            assert!(data);
        } else {
            // Of the others only the filter is touched.
            assert!(!index);
            assert!(!data);
        }
    }
    assert_eq!(
        db.reads,
        vec![
            "L0-bloom-3.db",
            "L0-bloom-2.db",
            "L0-bloom-1.db",
            "L0-bloom-0.db",
            "L0-index-0.db",
            "L0-data-0.db",
            "L0-data-0.db",
        ]
    );
}

#[test]
fn tombstone_in_memory_hides_a_value_on_disk() {
    let mut db = Store::new(2);
    db.put("a", "1");
    db.put("b", "2");
    db.put("c", "3");
    // "a" is on disk and in the frozen table; its tombstone is in memory.
    db.delete("a");
    assert_eq!(db.get("a"), None);
    db.put("d", "4");
    db.put("e", "5");
    // Now the tombstone is in the frozen table and in the newest bundle.
    assert_eq!(db.get("a"), None);
    db.put("f", "6");
    db.put("g", "7");
    // And now on disk only.
    assert_eq!(db.db.get("a"), Answer::Unknown);
    assert_eq!(db.get("a"), None);
    assert_eq!(db.get("b").as_deref(), Some("2"));
}

#[test]
fn memory_answers_found_deleted_or_unknown() {
    let mut db = BaumDb::new(3);
    assert_eq!(db.get("a"), Answer::Unknown);
    assert!(db.put("a".to_string(), "1".to_string()).is_none());
    assert_eq!(db.get("a"), Answer::Found("1".to_string()));
    assert!(db.delete("a").is_none());
    assert_eq!(db.get("a"), Answer::Deleted);
    assert!(db.delete("b").is_none());
    // The third entry fills the table: it is handed out and frozen.
    let full = db.put("c".to_string(), "3".to_string()).unwrap();
    assert_eq!(
        full.into_inner().into_entries(),
        vec![tombstone("a"), tombstone("b"), put("c", "3")]
    );
    assert_eq!(db.get("a"), Answer::Deleted);
    assert_eq!(db.get("c"), Answer::Found("3".to_string()));
    assert!(db.put("c".to_string(), "4".to_string()).is_none());
    assert_eq!(db.get("c"), Answer::Found("4".to_string()));
    assert!(db.put("d".to_string(), "5".to_string()).is_none());
    // The next full table takes the place of the frozen one.
    let full = db.delete("e").unwrap();
    assert_eq!(full.len(), 3);
    assert_eq!(db.get("a"), Answer::Unknown);
    assert_eq!(db.get("c"), Answer::Found("4".to_string()));
}

#[test]
fn table_of_size_zero_or_one_is_handed_out_at_every_write() {
    let mut db = BaumDb::new(0);
    assert_eq!(db.put("a".to_string(), "1".to_string()).unwrap().len(), 1);
    assert_eq!(db.get("a"), Answer::Found("1".to_string()));
    let mut db = BaumDb::new(1);
    assert_eq!(db.delete("a").unwrap().len(), 1);
    assert_eq!(db.get("a"), Answer::Deleted);
}

#[test]
fn overwriting_a_key_does_not_grow_the_table() {
    let mut db = BaumDb::new(2);
    for i in 0..10 {
        assert!(db.put("a".to_string(), i.to_string()).is_none());
    }
    assert!(db.put("b".to_string(), "x".to_string()).is_some());
}

#[test]
fn search_without_bundles_answers_at_once() {
    let (_, action) = BundleSearch::new("a".to_string(), Vec::new());
    assert_eq!(action, SearchAction::Answer(None));
}

#[test]
fn search_walks_filter_index_frame_and_block() {
    let files = data_file(&[put("a", "1"), put("b", "2")]);
    let mut table = MemTable::new();
    table.put("a".to_string(), "1".to_string());
    table.put("b".to_string(), "2".to_string());
    let out = table.serialize().unwrap();
    assert_eq!(out.main_data, files);
    let bundle = |n: usize| SstFileBundle {
        main_data_file_path: format!("data{n}"),
        index_file_path: format!("index{n}"),
        bloom_filter_file_path: format!("bloom{n}"),
    };
    let (mut search, action) = BundleSearch::new("b".to_string(), vec![bundle(0), bundle(1)]);
    assert_eq!(action, SearchAction::ReadFile("bloom0".to_string()));
    // An empty filter rules the key out: on to the next bundle.
    let mut empty = vec![0; 16];
    empty.push(5);
    assert_eq!(search.step(empty), Ok(SearchAction::ReadFile("bloom1".to_string())));
    let action = search.step(out.bloom_filter.into_bytes());
    assert_eq!(action, Ok(SearchAction::ReadFile("index1".to_string())));
    let action = search.step(out.offsets);
    assert_eq!(
        action,
        Ok(SearchAction::ReadAt { path: "data1".to_string(), offset: 0, len: 8 })
    );
    let action = search.step(files[..8].to_vec());
    assert_eq!(
        action,
        Ok(SearchAction::ReadAt {
            path: "data1".to_string(),
            offset: 8,
            len: files.len() as u64 - 8
        })
    );
    let action = search.step(files[8..].to_vec());
    assert_eq!(action, Ok(SearchAction::Answer(Some("2".to_string()))));
    assert_eq!(search.step(Vec::new()), Err(DbError::Invariant));
}

#[test]
fn search_ends_with_nothing_at_a_tombstone() {
    let mut store = Store::new(1);
    store.compacting = false;
    store.put("a", "1");
    store.delete("a");
    store.put("b", "2");
    assert_eq!(store.db.get("a"), Answer::Unknown);
    assert_eq!(store.search("a"), Ok(None));
    // The bundle of the tombstone ended the search: the older one was not asked.
    assert!(!store.reads.contains(&"L0-bloom-0.db".to_string()));
}

#[test]
fn search_reports_broken_files() {
    let bundles = || {
        vec![SstFileBundle {
            main_data_file_path: "d".to_string(),
            index_file_path: "i".to_string(),
            bloom_filter_file_path: "b".to_string(),
        }]
    };
    let out = data_file(&[put("a", "1")]);
    let mut table = MemTable::new();
    table.put("a".to_string(), "1".to_string());
    let written = table.serialize().unwrap();
    let bloom = written.bloom_filter.into_bytes();

    let (mut search, _) = BundleSearch::new("a".to_string(), bundles());
    assert_eq!(search.step(vec![1]), Err(DbError::Decode));
    assert_eq!(search.step(bloom.clone()), Err(DbError::Invariant));

    let (mut search, _) = BundleSearch::new("a".to_string(), bundles());
    search.step(bloom.clone()).unwrap();
    // An index without a whole entry: the key is not in this bundle.
    assert_eq!(search.step(vec![0, 0, 0]), Ok(SearchAction::Answer(None)));

    let (mut search, _) = BundleSearch::new("a".to_string(), bundles());
    search.step(bloom.clone()).unwrap();
    search.step(written.offsets.clone()).unwrap();
    assert_eq!(search.step(out[..7].to_vec()), Err(DbError::Decode));

    let (mut search, _) = BundleSearch::new("a".to_string(), bundles());
    search.step(bloom.clone()).unwrap();
    search.step(written.offsets.clone()).unwrap();
    search.step(out[..8].to_vec()).unwrap();
    assert_eq!(search.step(out[9..].to_vec()), Err(DbError::Decode));

    let (mut search, _) = BundleSearch::new("a".to_string(), bundles());
    search.step(bloom).unwrap();
    let mut far = vec![0, 0, 0, 0, 0, 0, 0, 1, b'a'];
    far.extend((u64::MAX - 3).to_be_bytes());
    assert_eq!(
        search.step(far),
        Ok(SearchAction::ReadAt { path: "d".to_string(), offset: u64::MAX - 3, len: 8 })
    );
    assert_eq!(search.step(out[..8].to_vec()), Err(DbError::Decode));
}

#[test]
fn merge_puts_values_and_drops_keys_at_tombstones() {
    let mut table = MemTable::new();
    table.put("a".to_string(), "old".to_string());
    table.put("b".to_string(), "old".to_string());
    table.delete("c");
    let mut newer = MemTable::new();
    newer.put("a".to_string(), "new".to_string());
    newer.delete("b");
    newer.delete("x");
    newer.put("d".to_string(), "new".to_string());
    let mut merger = table.into_inner();
    merge_newer(&mut merger, newer.into_inner());
    assert_eq!(merger.into_entries(), vec![put("a", "new"), tombstone("c"), put("d", "new")]);
}

#[test]
fn merging_data_files_goes_from_oldest_to_newest() {
    let oldest = data_file(&[put("a", "1"), tombstone("gone"), put("b", "1")]);
    let middle = data_file(&[put("a", "2"), tombstone("b")]);
    let newest = data_file(&[put("b", "3"), put("c", "3")]);
    let merged = merge_data_files(vec![oldest.clone(), middle.clone(), newest]).unwrap();
    assert_eq!(
        merged.into_entries(),
        vec![put("a", "2"), put("b", "3"), put("c", "3"), tombstone("gone")]
    );
    let merged = merge_data_files(vec![oldest.clone(), middle]).unwrap();
    assert_eq!(merged.into_entries(), vec![put("a", "2"), tombstone("gone")]);
    assert!(merge_data_files(Vec::new()).unwrap().is_empty());
    assert_eq!(merge_data_files(vec![oldest, vec![1, 2, 3]]).err(), Some(DbError::Decode));
}

#[test]
fn compaction_moves_the_first_level_into_one_bundle_of_the_second() {
    let mut db = Store::new(2);
    let keys: Vec<String> = (0..8).map(|i| format!("key{i}")).collect();
    for key in &keys[..6] {
        db.put(key, "v");
    }
    assert_eq!(db.level_names(Level::L0).len(), 3);
    assert!(db.level_names(Level::L1).is_empty());
    for key in &keys[6..] {
        db.put(key, "v");
    }
    // The fourth bundle made the first level reach its threshold.
    assert!(db.level_names(Level::L0).len() <= 3);
    assert!(db.level_names(Level::L0).is_empty());
    assert_eq!(db.level_names(Level::L1), vec!["L1-data-0.db"]);
    assert_eq!(db.files.len(), 3);
    assert_eq!(db.table("L1-data-0.db").len(), 8);
    for key in &keys {
        assert_eq!(db.get(key).as_deref(), Some("v"));
    }
    assert_eq!(db.get("key8"), None);
}

#[test]
fn compaction_keeps_the_answers() {
    let mut db = Store::new(2);
    db.compacting = false;
    db.put("a", "1");
    db.put("b", "1");
    db.put("a", "2");
    db.delete("b");
    db.put("c", "3");
    db.put("d", "3");
    db.delete("c");
    db.put("e", "4");
    let keys = ["a", "b", "c", "d", "e", "f"];
    let before: Vec<Option<String>> = keys.iter().map(|k| db.search(k).unwrap()).collect();
    assert_eq!(
        before,
        vec![Some("2".to_string()), None, None, Some("3".to_string()), Some("4".to_string()), None]
    );
    db.compact();
    assert_eq!(db.level_names(Level::L1), vec!["L1-data-0.db"]);
    let after: Vec<Option<String>> = keys.iter().map(|k| db.search(k).unwrap()).collect();
    assert_eq!(after, before);
    // The tombstones of the newer bundles took their keys out.
    assert_eq!(db.table("L1-data-0.db"), vec![put("a", "2"), put("d", "3"), put("e", "4")]);
}

#[test]
fn compaction_of_nothing_but_tombstones_removes_the_bundles() {
    let mut db = Store::new(1);
    db.compacting = false;
    db.put("a", "1");
    db.delete("a");
    assert_eq!(db.files.len(), 6);
    let mut run = Compactor::new();
    assert_eq!(run.stage(), Stage::Ready);
    assert_eq!(run.level(), Level::L0);
    let action = run.begin(&db.registry).unwrap();
    let names = match action {
        CompactionAction::Load(names) => names,
        other => panic!("unexpected {other:?}"),
    };
    assert_eq!(names, vec!["L0-data-0.db", "L0-data-1.db"]);
    assert_eq!(run.stage(), Stage::Loading);
    let files = names.iter().map(|n| db.files[n].clone()).collect();
    assert!(matches!(run.merge(&mut db.registry, files), Ok(CompactionAction::Remove)));
    assert_eq!(run.stage(), Stage::Removing);
    assert!(run.output().is_none());
    let removed = match run.finish(&mut db.registry).unwrap() {
        CompactionAction::Delete(bundles) => bundles,
        other => panic!("unexpected {other:?}"),
    };
    assert_eq!(removed.len(), 2);
    assert!(db.registry.iter().is_empty());
    assert_eq!(run.stage(), Stage::Finished);
    assert!(matches!(run.begin(&db.registry), Ok(CompactionAction::Done)));
}

#[test]
fn compaction_steps_out_of_turn_are_refused() {
    let mut db = Store::new(1);
    db.compacting = false;
    db.put("a", "1");
    let mut run = Compactor::new();
    assert_eq!(run.merge(&mut db.registry, Vec::new()).err(), Some(DbError::Invariant));
    assert_eq!(run.finish(&mut db.registry).err(), Some(DbError::Invariant));
    assert!(matches!(run.begin(&db.registry), Ok(CompactionAction::Load(_))));
    assert_eq!(run.begin(&db.registry).err(), Some(DbError::Invariant));
    // One file was named, so one file is due.
    assert_eq!(run.merge(&mut db.registry, Vec::new()).err(), Some(DbError::Invariant));
    assert_eq!(run.stage(), Stage::Loading);
    assert_eq!(run.merge(&mut db.registry, vec![vec![9]]).err(), Some(DbError::Decode));
    assert_eq!(run.stage(), Stage::Finished);
    // The bundle is still there after the failed run.
    assert_eq!(db.registry.iter().len(), 1);
}

#[test]
fn compaction_of_an_empty_store_is_done_at_once() {
    let registry = FileBundlesLevelled::new(String::new());
    let mut run = Compactor::new();
    assert!(matches!(run.begin(&registry), Ok(CompactionAction::Done)));
    assert_eq!(run.stage(), Stage::Finished);
}

#[test]
fn merged_bundle_is_visible_before_its_sources_leave() {
    let mut db = Store::new(1);
    db.compacting = false;
    for key in ["a", "b", "c"] {
        db.put(key, "v");
    }
    let mut run = Compactor::new();
    let names = match run.begin(&db.registry).unwrap() {
        CompactionAction::Load(names) => names,
        other => panic!("unexpected {other:?}"),
    };
    let files = names.iter().map(|n| db.files[n].clone()).collect();
    assert!(matches!(run.merge(&mut db.registry, files), Ok(CompactionAction::Write)));
    assert_eq!(run.stage(), Stage::Writing);
    // A table that is written to disk meanwhile goes in front of the level.
    db.put("d", "v");
    let plan = run.output().unwrap();
    assert_eq!(plan.bundle().main_data_file_path(), "L1-data-0.db");
    assert_eq!(plan.bundle().level(), Level::L1);
    // Nothing has changed for readers yet.
    assert_eq!(db.registry.iter().len(), 4);
    let removed = match run.finish(&mut db.registry).unwrap() {
        CompactionAction::Delete(bundles) => bundles,
        other => panic!("unexpected {other:?}"),
    };
    assert_eq!(removed.len(), 3);
    let visible: Vec<String> =
        db.registry.iter().into_iter().map(|b| b.main_data_file_path).collect();
    assert_eq!(visible, vec!["L0-data-3.db", "L1-data-0.db"]);
    assert_eq!(run.stage(), Stage::Finished);
}

#[test]
fn full_second_level_is_compacted_into_the_third() {
    let mut db = Store::new(1);
    let n = 4 * 8;
    for i in 0..n {
        db.put(&format!("k{i:03}"), &i.to_string());
    }
    assert!(db.level_names(Level::L0).is_empty());
    assert!(db.level_names(Level::L1).is_empty());
    assert_eq!(db.level_names(Level::L2), vec!["L2-data-0.db"]);
    assert_eq!(db.table("L2-data-0.db").len(), n);
    assert_eq!(db.files.len(), 3);
    for i in 0..n {
        assert_eq!(db.get(&format!("k{i:03}")), Some(i.to_string()));
    }
}

#[test]
fn many_keys_stay_readable_through_flushes_and_compactions() {
    let mut db = Store::new(500);
    let n = 6000;
    for i in 0..n {
        db.put(&i.to_string(), "MyValue");
    }
    for i in (0..n).step_by(7) {
        assert_eq!(db.get(&i.to_string()).as_deref(), Some("MyValue"));
    }
    assert_eq!(db.get(&n.to_string()), None);
    assert!(db.level_names(Level::L2).len() <= 1);
    assert!(db.level_names(Level::L0).len() <= 3);
    assert_eq!(db.level_names(Level::L1).len(), 3);
}

#[test]
fn reads_follow_the_writes_of_a_long_history() {
    let mut db = Store::new(16);
    let mut model: HashMap<String, Option<String>> = HashMap::new();
    let mut x: u32 = 7;
    for step in 0..3000u32 {
        x = x.wrapping_mul(1664525).wrapping_add(1013904223);
        let key = format!("k{}", (x >> 8) % 200);
        if (x >> 3) % 4 == 0 {
            db.delete(&key);
            model.insert(key.clone(), None);
        } else {
            db.put(&key, &step.to_string());
            model.insert(key.clone(), Some(step.to_string()));
        }
        // The key that was just written is read back from memory.
        assert_eq!(&db.get(&key), model.get(&key).unwrap());
    }
}

#[test]
fn tombstone_that_a_merge_drops_lets_an_older_value_of_a_lower_level_come_back() {
    let mut db = Store::new(1);
    for key in ["a", "b", "c", "d"] {
        db.put(key, "1");
    }
    assert_eq!(db.level_names(Level::L1), vec!["L1-data-0.db"]);
    db.put("x", "1");
    db.delete("a");
    db.put("y", "1");
    // The tombstone is in the first level and hides the value of the second.
    assert_eq!(db.search("a"), Ok(None));
    db.put("z", "1");
    // The merge took the tombstone of the newer bundle as a removal, and the
    // bundle below still holds the value.
    assert_eq!(db.table("L1-data-1.db"), vec![put("x", "1"), put("y", "1"), put("z", "1")]);
    assert_eq!(db.search("a"), Ok(Some("1".to_string())));
}

#[test]
fn without_compaction_every_read_returns_the_last_write() {
    let mut db = Store::new(8);
    db.compacting = false;
    let mut model: HashMap<String, Option<String>> = HashMap::new();
    let mut x: u32 = 99;
    for step in 0..400u32 {
        x = x.wrapping_mul(1664525).wrapping_add(1013904223);
        let key = format!("k{}", (x >> 8) % 100);
        if (x >> 3) % 3 == 0 {
            db.delete(&key);
            model.insert(key, None);
        } else {
            db.put(&key, &step.to_string());
            model.insert(key, Some(step.to_string()));
        }
        if step % 100 == 99 {
            for i in 0..100 {
                let key = format!("k{i}");
                let expected = model.get(&key).cloned().unwrap_or(None);
                assert_eq!(db.get(&key), expected);
            }
        }
    }
    assert!(db.level_names(Level::L0).len() > 20);
}

#[test]
fn a_flush_during_a_compaction_does_not_lead_to_a_name_that_is_in_use() {
    let mut db = Store::new(1);
    db.compacting = false;
    for key in ["a", "b", "c", "d"] {
        db.put(key, "v");
    }
    let mut run = Compactor::new();
    let names = match run.begin(&db.registry).unwrap() {
        CompactionAction::Load(names) => names,
        other => panic!("unexpected {other:?}"),
    };
    assert_eq!(names.len(), 4);
    let files = names.iter().map(|n| db.files[n].clone()).collect();
    assert!(matches!(run.merge(&mut db.registry, files), Ok(CompactionAction::Write)));
    // The fifth table reaches the first level while the run holds its four.
    db.put("e", "v");
    let plan = run.output().unwrap();
    let written = [
        (plan.bundle().main_data_file_path().clone(), plan.main_data().clone()),
        (plan.bundle().index_file_path().clone(), plan.offsets().clone()),
        (plan.bundle().bloom_filter_file_path().clone(), plan.bloom().clone()),
    ];
    for (path, bytes) in written {
        db.create(&path, &bytes);
    }
    match run.finish(&mut db.registry).unwrap() {
        CompactionAction::Delete(bundles) => db.delete_files(&bundles),
        other => panic!("unexpected {other:?}"),
    }
    assert_eq!(db.level_names(Level::L0), vec!["L0-data-4.db"]);
    // Three more tables make the level hold four bundles again. Each file
    // is created anew: `create` refuses a name that exists.
    for key in ["f", "g", "h"] {
        db.put(key, "v");
    }
    assert_eq!(
        db.level_names(Level::L0),
        vec!["L0-data-4.db", "L0-data-5.db", "L0-data-6.db", "L0-data-7.db"]
    );
    db.put("i", "v");
    assert_eq!(db.level_names(Level::L0).last().unwrap(), "L0-data-8.db");
    for key in ["a", "b", "c", "d", "e", "f", "g", "h", "i"] {
        assert_eq!(db.get(key).as_deref(), Some("v"));
    }
}

#[test]
fn a_level_whose_numbers_are_used_up_gives_no_bundle() {
    let mut registry = FileBundlesLevelled::new(String::new());
    registry.next_l0 = usize::MAX;
    let mut table = MemTable::new();
    table.put("a".to_string(), "1".to_string());
    assert_eq!(flush(table.clone(), &mut registry, Level::L0).err(), Some(DbError::Invariant));
    assert_eq!(registry.next_number(Level::L0), usize::MAX);
    // The other levels go on.
    let plan = flush(table.clone(), &mut registry, Level::L1).unwrap();
    assert_eq!(plan.bundle().main_data_file_path(), "L1-data-0.db");
    assert_eq!(registry.next_number(Level::L1), 1);
    registry.next_l0 = usize::MAX - 1;
    let plan = flush(table, &mut registry, Level::L0).unwrap();
    assert_eq!(plan.bundle().main_data_file_path(), &format!("L0-data-{}.db", usize::MAX - 1));
    assert_eq!(plan.bundle().number(), usize::MAX - 1);
}

#[test]
fn plan_bundle_names_the_files_of_a_written_table() {
    let mut registry = FileBundlesLevelled::new(String::new());
    let mut table = MemTable::new();
    table.put("a".to_string(), "1".to_string());
    let written = table.clone().serialize().unwrap();
    let data = written.main_data.clone();
    let index = written.offsets.clone();
    let first = plan_bundle(written, &mut registry, Level::L0).unwrap();
    assert_eq!(first.bundle().main_data_file_path(), "L0-data-0.db");
    assert_eq!(first.main_data(), &data);
    assert_eq!(first.offsets(), &index);
    assert_eq!(first.bloom().len(), 65537);
    // A plan that is never committed keeps its number.
    let second = flush(table, &mut registry, Level::L0).unwrap();
    assert_eq!(second.bundle().main_data_file_path(), "L0-data-1.db");
    assert_eq!(second.main_data(), &data);
    assert!(registry.iter().is_empty());
    assert_eq!(second.commit(&mut registry), ShouldCompact::No);
    assert_eq!(registry.iter()[0].main_data_file_path, "L0-data-1.db");
}

#[test]
fn merge_with_an_identity_writes_the_bundle_under_that_identity() {
    let mut db = Store::new(1);
    db.compacting = false;
    db.put("a", "1");
    db.put("b", "2");
    let mut run = Compactor::new();
    let names = match run.begin(&db.registry).unwrap() {
        CompactionAction::Load(names) => names,
        other => panic!("unexpected {other:?}"),
    };
    let files: Vec<Vec<u8>> = names.iter().map(|n| db.files[n].clone()).collect();
    let answer = run.merge_with_id(&mut db.registry, files, FileBundleId(77));
    assert!(matches!(answer, Ok(CompactionAction::Write)));
    assert_eq!(run.stage(), Stage::Writing);
    let plan = run.output().unwrap();
    assert_eq!(plan.bundle().id(), FileBundleId(77));
    assert_eq!(plan.bundle().main_data_file_path(), "L1-data-0.db");
    assert_eq!(plan.bundle().level(), Level::L1);
    assert_eq!(db.registry.next_number(Level::L1), 1);
    let table = MemTable::try_from_bytes(plan.main_data().clone()).unwrap();
    assert_eq!(table.into_inner().into_entries(), vec![put("a", "1"), put("b", "2")]);
}

#[test]
fn merge_refuses_an_identity_that_a_merged_bundle_has() {
    let mut db = Store::new(1);
    db.compacting = false;
    db.put("a", "1");
    db.put("b", "2");
    let taken = db.registry.oldest_first(Level::L0)[1].id();
    let mut run = Compactor::new();
    let names = match run.begin(&db.registry).unwrap() {
        CompactionAction::Load(names) => names,
        other => panic!("unexpected {other:?}"),
    };
    let files: Vec<Vec<u8>> = names.iter().map(|n| db.files[n].clone()).collect();
    let answer = run.merge_with_id(&mut db.registry, files, taken);
    assert_eq!(answer.err(), Some(DbError::Invariant));
    assert_eq!(run.stage(), Stage::Finished);
    assert!(run.output().is_none());
    // The bundles are still listed, and the number that was given is spent.
    assert_eq!(db.registry.iter().len(), 2);
    assert_eq!(db.registry.next_number(Level::L1), 1);
}

#[test]
fn flush_with_an_identity_names_the_bundle_with_it() {
    let mut registry = FileBundlesLevelled::new(String::new());
    let mut table = MemTable::new();
    table.put("a".to_string(), "1".to_string());
    let expected = table.clone().serialize().unwrap();
    let plan = flush_with_id(table.clone(), &mut registry, Level::L2, FileBundleId(5)).unwrap();
    assert_eq!(plan.bundle().id(), FileBundleId(5));
    assert_eq!(plan.bundle().bloom_filter_file_path(), "L2-bloom-0.db");
    assert_eq!(plan.main_data(), &expected.main_data);
    assert_eq!(plan.offsets(), &expected.offsets);
    let written = table.serialize().unwrap();
    let plan = plan_bundle_with_id(written, &mut registry, Level::L2, FileBundleId(6)).unwrap();
    assert_eq!(plan.bundle().id(), FileBundleId(6));
    assert_eq!(plan.bundle().index_file_path(), "L2-index-1.db");
    registry.next_l2 = usize::MAX;
    let again = MemTable::new();
    assert_eq!(
        flush_with_id(again, &mut registry, Level::L2, FileBundleId(7)).err(),
        Some(DbError::Invariant)
    );
}

#[test]
fn files_of_removed_bundles_are_none_of_the_listed_ones() {
    let mut db = Store::new(1);
    for i in 0..23 {
        db.put(&format!("k{i}"), "v");
    }
    // After every removal the directory holds the files of the listed
    // bundles and no others.
    let mut listed: Vec<String> = Vec::new();
    for bundle in db.registry.iter() {
        listed.push(bundle.main_data_file_path);
        listed.push(bundle.index_file_path);
        listed.push(bundle.bloom_filter_file_path);
    }
    listed.sort();
    let mut on_disk: Vec<String> = db.files.keys().cloned().collect();
    on_disk.sort();
    assert_eq!(on_disk, listed);
    let mut unique = listed.clone();
    unique.dedup();
    assert_eq!(unique.len(), listed.len());
}
