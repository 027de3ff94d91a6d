//! What holds of a whole compaction run: the three steps on a level leave
//! the level empty, put one bundle in front of the next level, and that
//! bundle holds the merged table in key order. The third level grows only
//! by a run that found the second one full.
use crate::bloom_filter::spec_bloom_bytes;
use crate::bloom_filter::DEFAULT_HASHES;
use crate::deserialization::spec_decode_blocks;
use crate::deserialization::spec_decode_table;
use crate::deserialization::spec_insert_records;
use crate::deserialization::spec_parse_record;
use crate::deserialization::spec_parse_text;
use crate::encoding::key_lt;
use crate::encoding::lemma_key_order;
use crate::encoding::spec_be_u64;
use crate::error::DbError;
use crate::file_handling::compaction::spec_data_names;
use crate::file_handling::compaction::spec_decode_all;
use crate::file_handling::compaction::spec_ids;
use crate::file_handling::compaction::spec_merge_all;
use crate::file_handling::compaction::spec_merge_newer;
use crate::file_handling::compaction::ActionView;
use crate::file_handling::compaction::CompactorView;
use crate::file_handling::compaction::Stage;
use crate::file_handling::file_bundle::lemma_commit_keeps_wf;
use crate::file_handling::file_bundle::lemma_fresh_names;
use crate::file_handling::file_bundle::lemma_without_keeps_wf;
use crate::file_handling::file_bundle::BundleView;
use crate::file_handling::file_bundle::Level;
use crate::file_handling::file_bundle::RegistryView;
use crate::file_handling::file_bundle::ShouldCompact;
use crate::file_handling::file_bundle::L1_COMPACTION_THRESHOLD;
use crate::file_handling::flushing::PlanView;
use crate::memtable::has_key;
use crate::memtable::lemma_insert_map;
use crate::memtable::lemma_key_order_of_sorted;
use crate::memtable::map_of;
use crate::memtable::sorted_records;
use crate::memtable::strictly_sorted;
use crate::memtable::Record;
use crate::memtable::Slot;
use crate::lookup_laws::lemma_bundle_lookup;
use crate::lookup_laws::spec_lookup;
use crate::memtable::lemma_map_of_at;
use crate::serialization::gunzip_bytes;
use crate::serialization::record_fits;
use crate::sst_reader::spec_bundle_lookup;
use crate::store_laws::lemma_merge_all;
use crate::store_laws::spec_find;
use crate::serialization::spec_bloom_of;
use crate::serialization::spec_encode;
use crate::store_laws::lemma_finish_replaces_sources;
use crate::store_laws::lemma_select_takes_all;
use crate::store_laws::lemma_select_takes_none;
use crate::store_laws::none_listed;
use vstd::prelude::*;
use vstd::set_lib::lemma_len_subset;
use vstd::utf8::decode_utf8_encode_utf8;

verus! {

/// The place at which `key` is to be put into a sorted sequence: behind
/// the last record whose key is before it.
pub open spec fn spec_rank(s: Seq<Record>, key: Seq<char>) -> int
    decreases s.len(),
{
    if s.len() == 0 {
        0
    } else if key_lt(s.last().0, key) {
        s.len() as int
    } else {
        spec_rank(s.drop_last(), key)
    }
}

/// Before the rank of a new key stand the smaller keys, from it on the
/// larger ones.
proof fn lemma_rank(s: Seq<Record>, key: Seq<char>)
    requires
        strictly_sorted(s),
        !has_key(s, key),
    ensures
        0 <= spec_rank(s, key) <= s.len(),
        forall|i: int| 0 <= i < spec_rank(s, key) ==> key_lt((#[trigger] s[i]).0, key),
        forall|i: int| spec_rank(s, key) <= i < s.len() ==> key_lt(key, (#[trigger] s[i]).0),
    decreases s.len(),
{
    if s.len() > 0 {
        let n = s.len() as int;
        if key_lt(s.last().0, key) {
            assert forall|i: int| 0 <= i < n implies key_lt((#[trigger] s[i]).0, key) by {
                if i < n - 1 {
                    assert(key_lt(s[i].0, s[n - 1].0));
                    lemma_key_order(s[i].0, s[n - 1].0, key);
                }
            }
        } else {
            let head = s.drop_last();
            lemma_key_order_of_sorted(s, n - 1, n);
            assert(head =~= s.subrange(0, n - 1));
            assert(!has_key(head, key)) by {
                if has_key(head, key) {
                    let i = choose|i: int| 0 <= i < head.len() && (#[trigger] head[i]).0 == key;
                    assert(s[i].0 == key);
                }
            }
            lemma_rank(head, key);
            assert(s[n - 1].0 != key);
            lemma_key_order(s[n - 1].0, key, key);
            assert forall|i: int| spec_rank(s, key) <= i < n implies key_lt(
                key,
                (#[trigger] s[i]).0,
            ) by {
                if i < n - 1 {
                    assert(head[i] == s[i]);
                }
            }
            assert forall|i: int| 0 <= i < spec_rank(s, key) implies key_lt(
                (#[trigger] s[i]).0,
                key,
            ) by {
                assert(head[i] == s[i]);
            }
        }
    }
}

/// A table with finitely many keys has its records in key order: a strictly
/// sorted sequence that stands for exactly this table.
pub proof fn lemma_sorted_records(table: Map<Seq<char>, Slot>)
    requires
        table.dom().finite(),
    ensures
        strictly_sorted(sorted_records(table)),
        map_of(sorted_records(table)) == table,
    decreases table.dom().len(),
{
    if table.dom().len() == 0 {
        let none = Seq::<Record>::empty();
        assert(table.dom() =~= Set::<Seq<char>>::empty());
        assert(map_of(none) =~= table);
        assert(strictly_sorted(none) && map_of(none) == table);
    } else {
        let key = table.dom().choose();
        assert(table.dom().contains(key));
        let rest = table.remove(key);
        assert(rest.dom() =~= table.dom().remove(key));
        lemma_sorted_records(rest);
        let s = sorted_records(rest);
        assert(!has_key(s, key)) by {
            assert(map_of(s).contains_key(key) == has_key(s, key));
        }
        lemma_rank(s, key);
        let at = spec_rank(s, key);
        lemma_insert_map(s, at, key, table[key]);
        let all = s.insert(at, (key, table[key]));
        assert(map_of(all) =~= table);
        assert(strictly_sorted(all) && map_of(all) == table);
    }
}

/// Putting records into a table with finitely many keys gives such a table.
proof fn lemma_insert_records_finite(raw: Seq<u8>, acc: Map<Seq<char>, Slot>)
    requires
        acc.dom().finite(),
    ensures
        spec_insert_records(raw, acc).dom().finite(),
    decreases raw.len(),
{
    match spec_parse_record(raw) {
        Some((record, n)) => {
            assert(acc.insert(record.0, record.1).dom() =~= acc.dom().insert(record.0));
            lemma_insert_records_finite(raw.skip(n), acc.insert(record.0, record.1));
        },
        None => {},
    }
}

/// Reading blocks into a table with finitely many keys gives such a table.
proof fn lemma_decode_blocks_finite(data: Seq<u8>, acc: Map<Seq<char>, Slot>)
    requires
        acc.dom().finite(),
        spec_decode_blocks(data, acc) is Some,
    ensures
        spec_decode_blocks(data, acc).unwrap().dom().finite(),
    decreases data.len(),
{
    if data.len() >= 8 {
        let n = spec_be_u64(data) as int;
        if data.len() - 8 >= n {
            match gunzip_bytes(data.subrange(8, 8 + n)) {
                None => {},
                Some(raw) => {
                    lemma_insert_records_finite(raw, acc);
                    lemma_decode_blocks_finite(data.skip(8 + n), spec_insert_records(raw, acc));
                },
            }
        }
    }
}

/// The table that a data file holds has finitely many keys.
pub proof fn lemma_decode_table_finite(data: Seq<u8>)
    requires
        spec_decode_table(data) is Some,
    ensures
        spec_decode_table(data).unwrap().dom().finite(),
{
    lemma_decode_blocks_finite(data, Map::empty());
}

/// The tables that data files hold have finitely many keys each.
proof fn lemma_decode_all_finite(files: Seq<Seq<u8>>, n: int)
    requires
        0 <= n,
        spec_decode_all(files, n) is Some,
    ensures
        spec_decode_all(files, n).unwrap().len() == n,
        forall|i: int|
            0 <= i < n ==> (#[trigger] spec_decode_all(files, n).unwrap()[i]).dom().finite(),
    decreases n,
{
    if n > 0 {
        lemma_decode_all_finite(files, n - 1);
        lemma_decode_table_finite(files[n - 1]);
    }
}

/// Merged tables with finitely many keys have finitely many keys.
proof fn lemma_merge_all_finite(tables: Seq<Map<Seq<char>, Slot>>, n: int)
    requires
        0 <= n <= tables.len(),
        forall|i: int| 0 <= i < n ==> (#[trigger] tables[i]).dom().finite(),
    ensures
        spec_merge_all(tables, n).dom().finite(),
    decreases n,
{
    if n > 1 {
        lemma_merge_all_finite(tables, n - 1);
        let older = spec_merge_all(tables, n - 1);
        let newer = tables[n - 1];
        let both = older.dom().union(newer.dom());
        assert(spec_merge_newer(older, newer).dom().subset_of(both));
        lemma_len_subset(spec_merge_newer(older, newer).dom(), both);
    } else if n == 1 {
        assert(tables[0].dom().finite());
    }
}

/// What the data files of a level hold once merged, where they decode: a
/// table with its records in key order, each key once.
pub proof fn lemma_merged_in_key_order(files: Seq<Seq<u8>>)
    requires
        spec_decode_all(files, files.len() as int) is Some,
    ensures
        ({
            let tables = spec_decode_all(files, files.len() as int).unwrap();
            let merged = spec_merge_all(tables, tables.len() as int);
            &&& tables.len() == files.len()
            &&& strictly_sorted(sorted_records(merged))
            &&& map_of(sorted_records(merged)) == merged
        }),
{
    let n = files.len() as int;
    lemma_decode_all_finite(files, n);
    let tables = spec_decode_all(files, n).unwrap();
    lemma_merge_all_finite(tables, n);
    lemma_sorted_records(spec_merge_all(tables, n));
}

/// Where bundle `i` of `level` stands in the order of reading.
pub open spec fn spec_visible_index(registry: RegistryView, level: Level, i: int) -> int {
    match level {
        Level::L0 => i,
        Level::L1 => registry.l0.len() + i,
        Level::L2 => registry.l0.len() + registry.l1.len() + i,
    }
}

/// In a registry whose identities differ, no bundle of another level has
/// the identity of a bundle of `level`.
pub proof fn lemma_levels_apart(registry: RegistryView, level: Level, other: Level)
    requires
        registry.distinct_ids(),
        level != other,
    ensures
        none_listed(registry.level(other), spec_ids(registry.level(level).reverse())),
{
    let sources = registry.level(level).reverse();
    let bundles = registry.level(other);
    assert forall|i: int| 0 <= i < bundles.len() implies !spec_ids(sources).contains(
        (#[trigger] bundles[i]).id,
    ) by {
        if spec_ids(sources).contains(bundles[i].id) {
            let j = choose|j: int|
                0 <= j < sources.len() && (#[trigger] sources[j]).id == bundles[i].id;
            let k = sources.len() - 1 - j;
            assert(sources[j] == registry.level(level)[k]);
            let a = spec_visible_index(registry, other, i);
            let b = spec_visible_index(registry, level, k);
            assert(registry.visible()[a] == bundles[i]);
            assert(registry.visible()[b] == registry.level(level)[k]);
            assert(a != b);
            if a < b {
                assert(registry.visible()[a].id != registry.visible()[b].id);
            } else {
                assert(registry.visible()[b].id != registry.visible()[a].id);
            }
        }
    }
}

/// A compaction run on a level that holds bundles, as its three steps make
/// it while nothing else changes the registry: the data files of the
/// level are asked for, oldest first; their merge is written out as one
/// bundle, which the registry names; and in the end the level is empty, the
/// bundle stands in front of the next level, the third level of three is
/// as it was, and the bundles of the level are handed back for deletion.
/// The run goes on to the next level only if that has reached its
/// threshold.
///
/// The premises say what the steps cannot know: that the files decode,
/// that something is left of them, that it can be compressed, that the
/// numbers of the next level are not used up, and that the random
/// identities differ.
pub proof fn lemma_run_compacts_level(
    registry: RegistryView,
    level: Level,
    files: Seq<Seq<u8>>,
    id: u128,
)
    requires
        registry.wf(),
        registry.distinct_ids(),
        level.spec_next_level() is Some,
        registry.level(level).len() > 0,
        files.len() == registry.level(level).len(),
        spec_decode_all(files, files.len() as int) is Some,
        spec_merge_all(
            spec_decode_all(files, files.len() as int).unwrap(),
            files.len() as int,
        ) != Map::<Seq<char>, Slot>::empty(),
        spec_encode(
            sorted_records(
                spec_merge_all(
                    spec_decode_all(files, files.len() as int).unwrap(),
                    files.len() as int,
                ),
            ),
        ) is Some,
        registry.counter(level.spec_next_level().unwrap()) < usize::MAX,
        !spec_ids(registry.level(level).reverse()).contains(id),
    ensures
        ({
            let next = level.spec_next_level().unwrap();
            let run = CompactorView {
                level,
                stage: Stage::Ready,
                sources: Seq::empty(),
                output: None,
            };
            let merged = sorted_records(
                spec_merge_all(
                    spec_decode_all(files, files.len() as int).unwrap(),
                    files.len() as int,
                ),
            );
            let bundle = registry.next_bundle(next, id);
            let loading = run.begin(registry);
            let writing = loading.0.merge(registry, files, id);
            let end = writing.0.finish(writing.1);
            &&& loading.1 == Ok::<ActionView, DbError>(
                ActionView::Load(spec_data_names(registry.level(level).reverse())),
            )
            &&& writing.2 == Ok::<ActionView, DbError>(ActionView::Write)
            &&& writing.0.wf()
            &&& writing.1 == registry.named(next)
            &&& writing.0.output == Some(
                PlanView {
                    bundle,
                    data: spec_encode(merged).unwrap().0,
                    index: spec_encode(merged).unwrap().1,
                    bloom: spec_bloom_bytes(
                        spec_bloom_of(merged, merged.len() as int),
                        DEFAULT_HASHES,
                    ),
                },
            )
            &&& strictly_sorted(merged)
            &&& registry.fresh(bundle)
            &&& end.2 == Ok::<ActionView, DbError>(ActionView::Delete(registry.level(level)))
            &&& end.1.level(level) == Seq::<BundleView>::empty()
            &&& end.1.level(next) == seq![bundle] + registry.level(next)
            &&& forall|other: Level|
                other != level && other != next ==> end.1.level(other) == registry.level(other)
            &&& end.1.wf()
            &&& end.0.stage == if RegistryView::crossed(next, registry.level(next).len() + 1)
                == ShouldCompact::Yes {
                Stage::Ready
            } else {
                Stage::Finished
            }
            &&& end.0.stage == Stage::Ready ==> end.0.level == next
        }),
{
    let next = level.spec_next_level().unwrap();
    let run = CompactorView { level, stage: Stage::Ready, sources: Seq::empty(), output: None };
    let sources = registry.level(level).reverse();
    let ids = spec_ids(sources);
    let bundle = registry.next_bundle(next, id);
    let loading = run.begin(registry);
    let writing = loading.0.merge(registry, files, id);
    let named = registry.named(next);
    lemma_merged_in_key_order(files);
    lemma_fresh_names(registry, next, id);
    assert(writing.1 == named);
    assert(writing.0.wf());
    // The levels are as they were when the work on the level ends.
    assert(named.level(level) =~= Seq::<BundleView>::empty() + sources.reverse()) by {
        assert(sources.reverse() =~= registry.level(level));
    }
    assert(none_listed(Seq::<BundleView>::empty(), ids));
    assert forall|other: Level| other != level implies none_listed(
        #[trigger] named.level(other),
        ids,
    ) by {
        lemma_levels_apart(registry, level, other);
    }
    lemma_finish_replaces_sources(writing.0, named, Seq::empty());
    // What is handed back for deletion is the level as it was.
    let committed = named.commit(bundle);
    assert forall|i: int| 0 <= i < registry.level(level).len() implies ids.contains(
        (#[trigger] registry.level(level)[i]).id,
    ) by {
        let j = sources.len() - 1 - i;
        assert(sources[j] == registry.level(level)[i]);
    }
    let target = seq![bundle] + registry.level(next);
    assert(none_listed(target, ids)) by {
        lemma_levels_apart(registry, level, next);
        assert forall|i: int| 0 <= i < target.len() implies !ids.contains(
            (#[trigger] target[i]).id,
        ) by {
            if i > 0 {
                assert(target[i] == registry.level(next)[i - 1]);
            }
        }
    }
    assert(committed.level(level) == registry.level(level));
    assert(committed.level(next) == target);
    lemma_select_takes_all(registry.level(level), ids);
    lemma_select_takes_none(target, ids);
    assert forall|other: Level| other != level && other != next implies #[trigger]
        committed.level(other) == registry.level(other) && none_listed(
        registry.level(other),
        ids,
    ) by {
        lemma_levels_apart(registry, level, other);
    }
    lemma_chosen_of_one_level(committed, level, ids);
    lemma_commit_keeps_wf(named, bundle);
    lemma_without_keeps_wf(committed, ids);
}

/// Where the bundles of one level are all listed and those of the others
/// are not, taking by identity takes that level.
proof fn lemma_chosen_of_one_level(registry: RegistryView, level: Level, ids: Set<u128>)
    requires
        forall|i: int|
            0 <= i < registry.level(level).len() ==> ids.contains(
                (#[trigger] registry.level(level)[i]).id,
            ),
        forall|other: Level| other != level ==> none_listed(#[trigger] registry.level(other), ids),
    ensures
        registry.chosen(ids) == registry.level(level),
{
    lemma_select_takes_all(registry.level(level), ids);
    if level != Level::L0 {
        assert(none_listed(registry.level(Level::L0), ids));
        lemma_select_takes_none(registry.l0, ids);
    }
    if level != Level::L1 {
        assert(none_listed(registry.level(Level::L1), ids));
        lemma_select_takes_none(registry.l1, ids);
    }
    if level != Level::L2 {
        assert(none_listed(registry.level(Level::L2), ids));
        lemma_select_takes_none(registry.l2, ids);
    }
    assert(registry.chosen(ids) =~= registry.level(level));
}

/// The end of the work on a level adds at most one bundle to a level, and
/// to the third level only where the second one was compacted.
pub proof fn lemma_finish_adds_one(run: CompactorView, registry: RegistryView, level: Level)
    requires
        run.wf(),
    ensures
        run.finish(registry).1.level(level).len() <= registry.level(level).len() + 1,
        run.finish(registry).1.level(Level::L2).len() > registry.level(Level::L2).len() ==> run.stage
            == Stage::Writing && run.level == Level::L1,
        run.finish(registry).1.level(Level::L0).len() <= registry.level(Level::L0).len(),
{
    let ids = spec_ids(run.sources);
    let base = match run.stage {
        Stage::Writing => registry.commit(run.output.unwrap().bundle),
        _ => registry,
    };
    lemma_select_len(base.l0, ids);
    lemma_select_len(base.l1, ids);
    lemma_select_len(base.l2, ids);
}

/// Removing by identity does not make a run of bundles longer.
proof fn lemma_select_len(bundles: Seq<BundleView>, ids: Set<u128>)
    ensures
        crate::file_handling::file_bundle::spec_select(bundles, ids, false).len() <= bundles.len(),
    decreases bundles.len(),
{
    if bundles.len() > 0 {
        lemma_select_len(bundles.drop_last(), ids);
    }
}

/// A run goes on to a further level only to the second one, and only
/// where its commit made the second level hold as many bundles as its
/// threshold. So the third level gets a bundle only from a run that found
/// the second level full, and one bundle from each such run.
pub proof fn lemma_run_goes_on_at_full_level(run: CompactorView, registry: RegistryView)
    requires
        run.wf(),
        run.stage != Stage::Ready,
        run.finish(registry).0.stage == Stage::Ready,
    ensures
        run.stage == Stage::Writing,
        run.level == Level::L0,
        run.finish(registry).0.level == Level::L1,
        registry.level(Level::L1).len() + 1 >= L1_COMPACTION_THRESHOLD,
{
}

/// Every key and value of the table fits its 64-bit length prefix.
pub open spec fn table_fits(table: Map<Seq<char>, Slot>) -> bool {
    forall|key: Seq<char>| table.contains_key(key) ==> record_fits((key, #[trigger] table[key]))
}

/// A text that was read fits the prefix that it was read with.
proof fn lemma_parsed_text_fits(b: Seq<u8>)
    requires
        spec_parse_text(b) is Some,
    ensures
        crate::serialization::text_fits(spec_parse_text(b).unwrap().0),
{
    let n = spec_be_u64(b) as int;
    decode_utf8_encode_utf8(b.subrange(8, 8 + n));
}

/// A record that was read fits.
proof fn lemma_parsed_record_fits(b: Seq<u8>)
    requires
        spec_parse_record(b) is Some,
    ensures
        record_fits(spec_parse_record(b).unwrap().0),
{
    lemma_parsed_text_fits(b);
    let n = spec_parse_text(b).unwrap().1;
    if b[n] == crate::serialization::KIND_PUT && b[n] != crate::serialization::KIND_TOMBSTONE {
        lemma_parsed_text_fits(b.skip(n + 1));
    }
}

/// Putting records that were read into a table that fits gives such a
/// table.
proof fn lemma_insert_records_fit(raw: Seq<u8>, acc: Map<Seq<char>, Slot>)
    requires
        table_fits(acc),
    ensures
        table_fits(spec_insert_records(raw, acc)),
    decreases raw.len(),
{
    match spec_parse_record(raw) {
        Some((record, n)) => {
            lemma_parsed_record_fits(raw);
            let next = acc.insert(record.0, record.1);
            assert forall|key: Seq<char>| next.contains_key(key) implies record_fits(
                (key, #[trigger] next[key]),
            ) by {
                if key != record.0 {
                    assert(acc.contains_key(key));
                    assert(record_fits((key, acc[key])));
                }
            }
            lemma_insert_records_fit(raw.skip(n), next);
        },
        None => {},
    }
}

/// Reading blocks into a table that fits gives such a table.
proof fn lemma_decode_blocks_fit(data: Seq<u8>, acc: Map<Seq<char>, Slot>)
    requires
        table_fits(acc),
        spec_decode_blocks(data, acc) is Some,
    ensures
        table_fits(spec_decode_blocks(data, acc).unwrap()),
    decreases data.len(),
{
    if data.len() >= 8 {
        let n = spec_be_u64(data) as int;
        if data.len() - 8 >= n {
            match gunzip_bytes(data.subrange(8, 8 + n)) {
                None => {},
                Some(raw) => {
                    lemma_insert_records_fit(raw, acc);
                    lemma_decode_blocks_fit(data.skip(8 + n), spec_insert_records(raw, acc));
                },
            }
        }
    }
}

/// The tables that data files hold fit.
proof fn lemma_decode_all_fit(files: Seq<Seq<u8>>, n: int)
    requires
        0 <= n,
        spec_decode_all(files, n) is Some,
    ensures
        spec_decode_all(files, n).unwrap().len() == n,
        forall|i: int| 0 <= i < n ==> table_fits(#[trigger] spec_decode_all(files, n).unwrap()[i]),
    decreases n,
{
    if n > 0 {
        lemma_decode_all_fit(files, n - 1);
        lemma_decode_blocks_fit(files[n - 1], Map::empty());
    }
}

/// Merged tables that fit fit.
proof fn lemma_merge_all_fit(tables: Seq<Map<Seq<char>, Slot>>, n: int)
    requires
        0 <= n <= tables.len(),
        forall|i: int| 0 <= i < n ==> table_fits(#[trigger] tables[i]),
    ensures
        table_fits(spec_merge_all(tables, n)),
    decreases n,
{
    if n > 1 {
        lemma_merge_all_fit(tables, n - 1);
        let older = spec_merge_all(tables, n - 1);
        let newer = tables[n - 1];
        let merged = spec_merge_newer(older, newer);
        assert(table_fits(newer));
        assert forall|key: Seq<char>| merged.contains_key(key) implies record_fits(
            (key, #[trigger] merged[key]),
        ) by {
            if newer.contains_key(key) {
                assert(record_fits((key, newer[key])));
            } else {
                assert(record_fits((key, older[key])));
            }
        }
    } else if n == 1 {
        assert(table_fits(tables[0]));
    }
}

/// The bundle that is written of the merge of a level gives for every key
/// what the merge holds for it: where the data files of the level decode
/// and their merge can be compressed, reading the three files of the new
/// bundle finds the slot of the merged table, and nothing for a key that
/// the merged table does not hold.
pub proof fn lemma_merged_bundle_answers(files: Seq<Seq<u8>>, key: Seq<char>)
    requires
        spec_decode_all(files, files.len() as int) is Some,
        spec_encode(
            sorted_records(
                spec_merge_all(
                    spec_decode_all(files, files.len() as int).unwrap(),
                    files.len() as int,
                ),
            ),
        ) is Some,
        spec_encode(
            sorted_records(
                spec_merge_all(
                    spec_decode_all(files, files.len() as int).unwrap(),
                    files.len() as int,
                ),
            ),
        ).unwrap().0.len() <= u64::MAX,
    ensures
        ({
            let table = spec_merge_all(
                spec_decode_all(files, files.len() as int).unwrap(),
                files.len() as int,
            );
            let merged = sorted_records(table);
            spec_bundle_lookup(
                spec_bloom_bytes(spec_bloom_of(merged, merged.len() as int), DEFAULT_HASHES),
                spec_encode(merged).unwrap().1,
                spec_encode(merged).unwrap().0,
                key,
            ) == Ok::<Option<Slot>, DbError>(spec_lookup(table, key))
        }),
{
    let n = files.len() as int;
    let tables = spec_decode_all(files, n).unwrap();
    let table = spec_merge_all(tables, n);
    let merged = sorted_records(table);
    lemma_merged_in_key_order(files);
    lemma_decode_all_fit(files, n);
    lemma_merge_all_fit(tables, n);
    assert forall|i: int| 0 <= i < merged.len() implies record_fits(#[trigger] merged[i]) by {
        lemma_map_of_at(merged, i);
        assert(record_fits((merged[i].0, table[merged[i].0])));
    }
    lemma_bundle_lookup(merged, key);
}

/// What looking through tables finds: the slot of a table that holds the
/// key, or nothing where no table holds it.
proof fn lemma_find_cases(tiers: Seq<Map<Seq<char>, Slot>>, key: Seq<char>)
    ensures
        match spec_find(tiers, key) {
            Some(slot) => exists|i: int|
                0 <= i < tiers.len() && (#[trigger] tiers[i]).contains_key(key) && tiers[i][key]
                    == slot,
            None => forall|i: int| 0 <= i < tiers.len() ==> !(#[trigger] tiers[i]).contains_key(key),
        },
    decreases tiers.len(),
{
    if tiers.len() > 0 {
        if tiers[0].contains_key(key) {
        } else {
            let rest = tiers.drop_first();
            lemma_find_cases(rest, key);
            match spec_find(rest, key) {
                Some(slot) => {
                    let i = choose|i: int|
                        0 <= i < rest.len() && (#[trigger] rest[i]).contains_key(key)
                            && rest[i][key] == slot;
                    assert(tiers[i + 1] == rest[i]);
                },
                None => {
                    assert forall|i: int| 0 <= i < tiers.len() implies !(#[trigger] tiers[i])
                        .contains_key(key) by {
                        if i > 0 {
                            assert(tiers[i] == rest[i - 1]);
                        }
                    }
                },
            }
        }
    }
}

/// Where the tables of a level hold values only, their merge holds exactly
/// the keys that one of them holds, each with the value of the newest
/// table that holds it.
pub proof fn lemma_merge_of_values(tables: Seq<Map<Seq<char>, Slot>>, key: Seq<char>)
    requires
        tables.len() >= 1,
        forall|i: int, k: Seq<char>|
            0 <= i < tables.len() && (#[trigger] tables[i]).contains_key(k) ==> #[trigger] tables[i][k]
                is Put,
    ensures
        ({
            let merged = spec_merge_all(tables, tables.len() as int);
            let newest_first = tables.reverse();
            &&& merged.contains_key(key) <==> exists|i: int|
                0 <= i < tables.len() && (#[trigger] tables[i]).contains_key(key)
            &&& merged.contains_key(key) ==> spec_find(newest_first, key) == Some(merged[key])
        }),
{
    let n = tables.len() as int;
    let newest_first = tables.reverse();
    assert(tables.subrange(0, n) =~= tables);
    lemma_merge_all(tables, n, key);
    lemma_find_cases(newest_first, key);
    match spec_find(newest_first, key) {
        Some(slot) => {
            let i = choose|i: int|
                0 <= i < newest_first.len() && (#[trigger] newest_first[i]).contains_key(key)
                    && newest_first[i][key] == slot;
            assert(newest_first[i] == tables[n - 1 - i]);
            assert(tables[n - 1 - i].contains_key(key));
            assert(tables[n - 1 - i][key] is Put);
        },
        None => {
            assert forall|i: int| 0 <= i < n implies !(#[trigger] tables[i]).contains_key(key) by {
                assert(newest_first[n - 1 - i] == tables[i]);
            }
        },
    }
}

} // verus!
