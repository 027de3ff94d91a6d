use baumdb::file_handling::file_bundle::file_name;
use baumdb::file_handling::file_bundle::FileBundle;
use baumdb::file_handling::file_bundle::FileBundleId;
use baumdb::file_handling::file_bundle::FileBundles;
use baumdb::file_handling::file_bundle::FileBundlesLevelled;
use baumdb::file_handling::file_bundle::FileKind;
use baumdb::file_handling::file_bundle::Level;
use baumdb::file_handling::file_bundle::ShouldCompact;
use baumdb::file_handling::file_bundle::SstFileBundle;
use std::collections::HashSet;
use std::collections::VecDeque;

fn new_with_path_level(main_path: &str, level: Level) -> FileBundle {
    FileBundle::new(FileBundleId::new(), main_path.to_string(), String::new(), String::new(), level, 0)
}

fn data_names(registry: &FileBundlesLevelled) -> Vec<String> {
    registry.iter().into_iter().map(|b| b.main_data_file_path).collect()
}

fn commit_fresh(registry: &mut FileBundlesLevelled, level: Level) -> (ShouldCompact, u128) {
    let bundle = registry.new_file_bundle(level);
    let id = bundle.id().0;
    (registry.commit_file_bundle(bundle), id)
}

#[test]
fn test_bundle_iterator_works_correctly() {
    let mut l0 = VecDeque::new();
    let mut l1 = VecDeque::new();
    let mut l2 = VecDeque::new();

    let path_1 = String::from("1");
    let path_2 = String::from("2");
    let path_3 = String::from("3");
    let path_4 = String::from("4");
    let path_5 = String::from("5");
    let path_6 = String::from("6");

    let bundle_1 = new_with_path_level(&path_1, Level::L0);
    let bundle_2 = new_with_path_level(&path_2, Level::L0);
    let bundle_3 = new_with_path_level(&path_3, Level::L1);
    let bundle_4 = new_with_path_level(&path_4, Level::L1);
    let bundle_5 = new_with_path_level(&path_5, Level::L2);
    let bundle_6 = new_with_path_level(&path_6, Level::L2);

    l0.push_back(bundle_2);
    l0.push_front(bundle_1);
    l1.push_back(bundle_4);
    l1.push_front(bundle_3);
    l2.push_back(bundle_6);
    l2.push_front(bundle_5);

    let bundles = FileBundlesLevelled {
        base_path: Default::default(),
        l0,
        l1,
        l2,
        next_l0: 0,
        next_l1: 0,
        next_l2: 0,
    };

    let visible = bundles.iter();
    let paths = [path_1, path_2, path_3, path_4, path_5, path_6];
    assert_eq!(visible.len(), paths.len());
    for (bundle, path) in visible.into_iter().zip(paths) {
        println!("{:?}", bundle);
        assert_eq!(bundle.main_data_file_path, path);
    }
}

#[test]
fn next_level_ends_at_the_last_level() {
    assert_eq!(Level::L0.next_level(), Some(Level::L1));
    assert_eq!(Level::L1.next_level(), Some(Level::L2));
    assert_eq!(Level::L2.next_level(), None);
}

#[test]
fn file_names_hold_level_kind_and_number() {
    assert_eq!(file_name(Level::L0, FileKind::Data, 0), "L0-data-0.db");
    assert_eq!(file_name(Level::L1, FileKind::Index, 7), "L1-index-7.db");
    assert_eq!(file_name(Level::L2, FileKind::Bloom, 10), "L2-bloom-10.db");
    assert_eq!(file_name(Level::L0, FileKind::Data, 1234567890), "L0-data-1234567890.db");
    assert_eq!(
        file_name(Level::L0, FileKind::Data, usize::MAX),
        format!("L0-data-{}.db", usize::MAX)
    );
    assert_eq!(Level::L1.name(), "L1");
    assert_eq!(FileKind::Bloom.name(), "bloom");
}

#[test]
fn new_bundle_is_numbered_by_the_counter_of_its_level() {
    // Until a bundle is removed, the counter of a level is the size of the
    // level when every named bundle was committed.
    let mut registry = FileBundlesLevelled::new("dir".to_string());
    assert_eq!(registry.base_path, "dir");
    assert_eq!(registry.next_number(Level::L0), 0);
    let first = registry.new_file_bundle(Level::L0);
    assert_eq!(first.main_data_file_path(), "L0-data-0.db");
    assert_eq!(first.index_file_path(), "L0-index-0.db");
    assert_eq!(first.bloom_filter_file_path(), "L0-bloom-0.db");
    assert_eq!(first.level(), Level::L0);
    assert_eq!(first.number(), 0);
    assert_eq!(registry.next_number(Level::L0), 1);
    // An uncommitted bundle is not visible.
    assert!(registry.iter().is_empty());
    assert_eq!(registry.level_len(Level::L0), 0);
    registry.commit_file_bundle(first);
    assert_eq!(registry.level_len(Level::L0), 1);
    let second = registry.new_file_bundle(Level::L0);
    assert_eq!(second.main_data_file_path(), "L0-data-1.db");
    let other = registry.new_file_bundle_with_id(Level::L2, FileBundleId(42));
    assert_eq!(other.id(), FileBundleId(42));
    assert_eq!(other.bloom_filter_file_path(), "L2-bloom-0.db");
    // The levels count apart.
    assert_eq!(registry.next_number(Level::L0), 2);
    assert_eq!(registry.next_number(Level::L1), 0);
    assert_eq!(registry.next_number(Level::L2), 1);
    let again = registry.new_file_bundle_with_id(Level::L2, FileBundleId(43));
    assert_eq!(again.main_data_file_path(), "L2-data-1.db");
    assert_eq!(FileBundle::from(again).id(), FileBundleId(43));
    let inner = other.into_inner();
    assert_eq!(inner.id(), FileBundleId(42));
    assert_eq!(inner.level(), Level::L2);
    assert_eq!(inner.number(), 0);
    assert_eq!(inner.main_data_file_path(), "L2-data-0.db");
    assert_eq!(inner.index_file_path(), "L2-index-0.db");
    assert_eq!(inner.bloom_filter_file_path(), "L2-bloom-0.db");
}

#[test]
fn a_name_is_not_given_again_after_its_bundle_or_another_was_removed() {
    let mut registry = FileBundlesLevelled::new(String::new());
    let first = registry.new_file_bundle_with_id(Level::L0, FileBundleId(0));
    registry.commit_file_bundle(first);
    let second = registry.new_file_bundle_with_id(Level::L0, FileBundleId(1));
    registry.commit_file_bundle(second);
    let mut gone = HashSet::new();
    gone.insert(0);
    assert_eq!(registry.remove_bundles(&gone).len(), 1);
    assert_eq!(data_names(&registry), vec!["L0-data-1.db"]);
    // The level holds one bundle, and the next number is still two.
    let third = registry.new_file_bundle(Level::L0);
    assert_eq!(third.main_data_file_path(), "L0-data-2.db");
    assert_eq!(third.index_file_path(), "L0-index-2.db");
    assert_eq!(third.bloom_filter_file_path(), "L0-bloom-2.db");
    registry.commit_file_bundle(third);
    gone.insert(1);
    gone.insert(registry.oldest_first(Level::L0)[1].id().0);
    assert_eq!(registry.remove_bundles(&gone).len(), 2);
    assert!(registry.iter().is_empty());
    // Two bundles that are named one after the other differ in every name,
    // committed or not.
    let a = registry.new_file_bundle(Level::L0);
    let b = registry.new_file_bundle(Level::L0);
    assert_eq!(a.main_data_file_path(), "L0-data-3.db");
    assert_eq!(b.main_data_file_path(), "L0-data-4.db");
    let mut names = HashSet::new();
    for bundle in [&a, &b] {
        assert!(names.insert(bundle.main_data_file_path().clone()));
        assert!(names.insert(bundle.index_file_path().clone()));
        assert!(names.insert(bundle.bloom_filter_file_path().clone()));
    }
}

#[test]
fn fresh_identities_are_random_version_four_uuids() {
    let a = FileBundleId::new();
    let b = FileBundleId::new();
    assert_ne!(a, b);
    for id in [a, b] {
        assert_eq!((id.0 >> 76) & 0xf, 4);
        assert_eq!((id.0 >> 62) & 0x3, 2);
    }
}

#[test]
fn commit_puts_the_bundle_in_front_of_its_level() {
    let mut registry = FileBundlesLevelled::new(String::new());
    commit_fresh(&mut registry, Level::L1);
    commit_fresh(&mut registry, Level::L0);
    commit_fresh(&mut registry, Level::L2);
    commit_fresh(&mut registry, Level::L0);
    commit_fresh(&mut registry, Level::L1);
    assert_eq!(
        data_names(&registry),
        vec!["L0-data-1.db", "L0-data-0.db", "L1-data-1.db", "L1-data-0.db", "L2-data-0.db"]
    );
    let oldest_first: Vec<String> = registry
        .oldest_first(Level::L0)
        .iter()
        .map(|b| b.main_data_file_path().clone())
        .collect();
    assert_eq!(oldest_first, vec!["L0-data-0.db", "L0-data-1.db"]);
    assert!(registry.oldest_first(Level::L2).len() == 1);
}

#[test]
fn first_level_calls_for_compaction_at_four_bundles() {
    let mut registry = FileBundlesLevelled::new(String::new());
    for _ in 0..3 {
        assert_eq!(commit_fresh(&mut registry, Level::L0).0, ShouldCompact::No);
    }
    assert_eq!(commit_fresh(&mut registry, Level::L0).0, ShouldCompact::Yes);
    assert_eq!(commit_fresh(&mut registry, Level::L0).0, ShouldCompact::Yes);
}

#[test]
fn second_level_calls_for_compaction_at_eight_bundles() {
    let mut registry = FileBundlesLevelled::new(String::new());
    for _ in 0..7 {
        assert_eq!(commit_fresh(&mut registry, Level::L1).0, ShouldCompact::No);
    }
    assert_eq!(commit_fresh(&mut registry, Level::L1).0, ShouldCompact::Yes);
}

#[test]
fn last_level_never_calls_for_compaction() {
    let mut registry = FileBundlesLevelled::new(String::new());
    for _ in 0..20 {
        assert_eq!(commit_fresh(&mut registry, Level::L2).0, ShouldCompact::No);
    }
}

#[test]
fn remove_takes_out_the_listed_bundles_only() {
    let mut registry = FileBundlesLevelled::new(String::new());
    let mut ids = Vec::new();
    for level in [Level::L0, Level::L0, Level::L0, Level::L1, Level::L1, Level::L2] {
        ids.push(commit_fresh(&mut registry, level).1);
    }
    let mut gone = HashSet::new();
    gone.insert(ids[0]);
    gone.insert(ids[2]);
    gone.insert(ids[3]);
    gone.insert(12345);
    let removed = registry.remove_bundles(&gone);
    let removed_names: Vec<String> =
        removed.iter().map(|b| b.main_data_file_path().clone()).collect();
    assert_eq!(removed_names, vec!["L0-data-2.db", "L0-data-0.db", "L1-data-0.db"]);
    assert_eq!(removed[0].id().0, ids[2]);
    assert_eq!(data_names(&registry), vec!["L0-data-1.db", "L1-data-1.db", "L2-data-0.db"]);
    assert!(registry.remove_bundles(&HashSet::new()).is_empty());
    assert_eq!(registry.iter().len(), 3);
}

#[test]
fn registry_handle_passes_on_to_its_levels() {
    let mut registry = FileBundles::new("base".to_string());
    assert_eq!(registry.inner().base_path, "base");
    let bundle = registry.new_file_bundle(Level::L0);
    let id = bundle.id().0;
    assert_eq!(registry.commit_file_bundle(bundle), ShouldCompact::No);
    assert_eq!(registry.inner().iter().len(), 1);
    let files: SstFileBundle = registry.inner().iter().remove(0);
    assert_eq!(files.index_file_path, "L0-index-0.db");
    assert_eq!(files.bloom_filter_file_path, "L0-bloom-0.db");
    let copy = SstFileBundle::from(&registry.inner().oldest_first(Level::L0)[0].clone());
    assert_eq!(copy.main_data_file_path, "L0-data-0.db");
    let mut gone = HashSet::new();
    gone.insert(id);
    assert_eq!(registry.remove_bundles(&gone).len(), 1);
    assert!(registry.inner().iter().is_empty());
}
