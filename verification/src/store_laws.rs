//! What holds of the store as a whole: a read sees the last write, a
//! compaction run leaves the answers as they were, and no bundle leaves the
//! registry before what replaces it is visible.
use crate::db::AnswerView;
use crate::db::spec_is_full;
use crate::db::spec_memory_answer;
use crate::db::spec_slot_answer;
use crate::db::spec_written;
use crate::file_handling::compaction::CompactorView;
use crate::file_handling::compaction::spec_ids;
use crate::file_handling::compaction::spec_merge_all;
use crate::file_handling::compaction::Stage;
use crate::file_handling::file_bundle::BundleView;
use crate::file_handling::file_bundle::Level;
use crate::file_handling::file_bundle::RegistryView;
use crate::file_handling::file_bundle::spec_select;
use crate::memtable::MemTable;
use crate::memtable::Slot;
use vstd::prelude::*;

verus! {

/// What the tables of `tiers` hold for `key`, newest first: the slot of the
/// first table that holds the key.
pub open spec fn spec_find(tiers: Seq<Map<Seq<char>, Slot>>, key: Seq<char>) -> Option<Slot>
    decreases tiers.len(),
{
    if tiers.len() == 0 {
        None
    } else if tiers[0].contains_key(key) {
        Some(tiers[0][key])
    } else {
        spec_find(tiers.drop_first(), key)
    }
}

/// What a reader is told of `key` by the bundles: the value of the first
/// slot found, and nothing for a tombstone or where no bundle holds the
/// key.
pub open spec fn spec_disk_get(tiers: Seq<Map<Seq<char>, Slot>>, key: Seq<char>) -> Option<
    Seq<char>,
> {
    match spec_find(tiers, key) {
        Some(slot) => slot.value(),
        None => None,
    }
}

/// The store as mathematical values: the two tables in memory, what each
/// visible bundle holds, newest first, and the size at which the writable
/// table is frozen.
pub struct StoreModel {
    pub active: Map<Seq<char>, Slot>,
    pub frozen: Map<Seq<char>, Slot>,
    pub disk: Seq<Map<Seq<char>, Slot>>,
    pub limit: nat,
}

/// A write: a value put under a key, or a key deleted.
pub enum Write {
    Put(Seq<char>, Seq<char>),
    Delete(Seq<char>),
}

impl Write {
    /// The key that is written.
    pub open spec fn key(self) -> Seq<char> {
        match self {
            Write::Put(key, _) => key,
            Write::Delete(key) => key,
        }
    }

    /// The slot that is written.
    pub open spec fn slot(self) -> Slot {
        match self {
            Write::Put(_, value) => Slot::Put(value),
            Write::Delete(_) => Slot::Tombstone,
        }
    }
}

impl StoreModel {
    /// The frozen table is empty or is what the newest bundle holds: it was
    /// written to disk before the write that froze it returned.
    pub open spec fn frozen_is_durable(self) -> bool {
        self.frozen == Map::<Seq<char>, Slot>::empty() || (self.disk.len() > 0 && self.disk[0]
            == self.frozen)
    }

    /// What `get` returns: memory is asked first, then the bundles.
    pub open spec fn get(self, key: Seq<char>) -> Option<Seq<char>> {
        match spec_memory_answer(self.active, self.frozen, key) {
            AnswerView::Found(value) => Some(value),
            AnswerView::Deleted => None,
            AnswerView::Unknown => spec_disk_get(self.disk, key),
        }
    }

    /// The store after a write. A table that the write fills is frozen and
    /// becomes the newest bundle.
    pub open spec fn write(self, w: Write) -> StoreModel {
        let written = self.active.insert(w.key(), w.slot());
        if spec_is_full(written, self.limit) {
            StoreModel {
                active: Map::empty(),
                frozen: written,
                disk: seq![written] + self.disk,
                limit: self.limit,
            }
        } else {
            StoreModel { active: written, ..self }
        }
    }

    /// The store after a sequence of writes.
    pub open spec fn write_all(self, writes: Seq<Write>) -> StoreModel
        decreases writes.len(),
    {
        if writes.len() == 0 {
            self
        } else {
            self.write_all(writes.drop_last()).write(writes.last())
        }
    }
}

/// The slot of the last write to `key` among `writes`, if there is one.
pub open spec fn spec_last_write(writes: Seq<Write>, key: Seq<char>) -> Option<Slot>
    decreases writes.len(),
{
    if writes.len() == 0 {
        None
    } else if writes.last().key() == key {
        Some(writes.last().slot())
    } else {
        spec_last_write(writes.drop_last(), key)
    }
}

/// What `put` and `delete` do to memory is what a write does to the model.
pub proof fn lemma_written_is_write(
    store: StoreModel,
    w: Write,
    active_after: Map<Seq<char>, Slot>,
    frozen_after: Map<Seq<char>, Slot>,
    full: Option<MemTable>,
)
    requires
        spec_written(
            store.active,
            store.frozen,
            store.limit,
            w.key(),
            w.slot(),
            active_after,
            frozen_after,
            full,
        ),
    ensures
        store.write(w).active == active_after,
        store.write(w).frozen == frozen_after,
        full matches Some(table) ==> store.write(w).disk == seq![table@] + store.disk,
        full is None ==> store.write(w).disk == store.disk,
{
}

/// A read that follows a write to its key at once sees that write: the
/// value that was put, or nothing after a delete. Memory alone answers it.
pub proof fn lemma_read_own_write(
    active: Map<Seq<char>, Slot>,
    frozen: Map<Seq<char>, Slot>,
    limit: nat,
    key: Seq<char>,
    slot: Slot,
    active_after: Map<Seq<char>, Slot>,
    frozen_after: Map<Seq<char>, Slot>,
    full: Option<MemTable>,
)
    requires
        spec_written(active, frozen, limit, key, slot, active_after, frozen_after, full),
    ensures
        spec_memory_answer(active_after, frozen_after, key) == spec_slot_answer(slot),
{
}

/// One write changes the answer for its own key to what was written and
/// leaves the answer for every other key as it was.
pub proof fn lemma_get_after_write(store: StoreModel, w: Write, key: Seq<char>)
    requires
        store.frozen_is_durable(),
    ensures
        store.write(w).frozen_is_durable(),
        store.write(w).get(key) == if w.key() == key {
            w.slot().value()
        } else {
            store.get(key)
        },
{
    let written = store.active.insert(w.key(), w.slot());
    let after = store.write(w);
    if spec_is_full(written, store.limit) {
        assert(after.disk[0] == written);
        assert(after.disk.drop_first() =~= store.disk);
        if w.key() != key && !store.active.contains_key(key) {
            if store.frozen.contains_key(key) {
                assert(store.disk[0] == store.frozen);
            } else if store.disk.len() > 0 && store.disk[0] == store.frozen {
            } else {
                assert(store.frozen =~= Map::<Seq<char>, Slot>::empty());
            }
        }
    }
}

/// After any sequence of writes, a read of a key returns the value of the
/// last put to that key, nothing where a delete of the key came after it,
/// and what it returned before the writes where none of them was to that
/// key.
pub proof fn lemma_get_after_writes(store: StoreModel, writes: Seq<Write>, key: Seq<char>)
    requires
        store.frozen_is_durable(),
    ensures
        store.write_all(writes).frozen_is_durable(),
        store.write_all(writes).get(key) == match spec_last_write(writes, key) {
            Some(slot) => slot.value(),
            None => store.get(key),
        },
    decreases writes.len(),
{
    if writes.len() > 0 {
        lemma_get_after_writes(store, writes.drop_last(), key);
        lemma_get_after_write(store.write_all(writes.drop_last()), writes.last(), key);
    }
}

/// What the first `n` tables, oldest first, hold for `key` once merged, by
/// what the newest of them that holds the key holds for it: a value stays;
/// a tombstone stays only in the oldest table.
pub proof fn lemma_merge_all(tables: Seq<Map<Seq<char>, Slot>>, n: int, key: Seq<char>)
    requires
        1 <= n <= tables.len(),
    ensures
        match spec_find(tables.subrange(0, n).reverse(), key) {
            None => !spec_merge_all(tables, n).contains_key(key),
            Some(Slot::Put(value)) => spec_merge_all(tables, n).contains_key(key)
                && spec_merge_all(tables, n)[key] == Slot::Put(value),
            Some(Slot::Tombstone) => !spec_merge_all(tables, n).contains_key(key)
                || spec_merge_all(tables, n)[key] == Slot::Tombstone,
        },
    decreases n,
{
    let newest_first = tables.subrange(0, n).reverse();
    assert(newest_first[0] == tables[n - 1]);
    if n == 1 {
        assert(newest_first.drop_first() =~= Seq::<Map<Seq<char>, Slot>>::empty());
    } else {
        assert(newest_first.drop_first() =~= tables.subrange(0, n - 1).reverse());
        lemma_merge_all(tables, n - 1, key);
    }
}

/// Looking through two runs of tables one after the other.
pub proof fn lemma_find_concat(
    first: Seq<Map<Seq<char>, Slot>>,
    second: Seq<Map<Seq<char>, Slot>>,
    key: Seq<char>,
)
    ensures
        spec_find(first + second, key) == match spec_find(first, key) {
            Some(slot) => Some(slot),
            None => spec_find(second, key),
        },
    decreases first.len(),
{
    if first.len() == 0 {
        assert(first + second =~= second);
    } else {
        assert((first + second).drop_first() =~= first.drop_first() + second);
        lemma_find_concat(first.drop_first(), second, key);
    }
}

/// The bundles after the bundles `sources` of a level, newest first, were
/// compacted: their merge stands in their place, in front of the levels
/// below, unless it is empty.
pub open spec fn spec_compacted(
    upper: Seq<Map<Seq<char>, Slot>>,
    sources: Seq<Map<Seq<char>, Slot>>,
    lower: Seq<Map<Seq<char>, Slot>>,
) -> Seq<Map<Seq<char>, Slot>> {
    let merged = spec_merge_all(sources.reverse(), sources.len() as int);
    if merged == Map::<Seq<char>, Slot>::empty() {
        upper + lower
    } else {
        upper + seq![merged] + lower
    }
}

/// A deleted key comes back: nothing newer than the compacted level holds
/// the key, the level holds a tombstone for it that the merge drops, and a
/// level below still holds a value for it.
pub open spec fn spec_resurfaces(
    upper: Seq<Map<Seq<char>, Slot>>,
    sources: Seq<Map<Seq<char>, Slot>>,
    lower: Seq<Map<Seq<char>, Slot>>,
    key: Seq<char>,
) -> bool {
    &&& spec_find(upper, key) is None
    &&& spec_find(sources, key) == Some(Slot::Tombstone)
    &&& !spec_merge_all(sources.reverse(), sources.len() as int).contains_key(key)
    &&& spec_disk_get(lower, key) is Some
}

/// A compaction run leaves the answer for a key as it was. The one case
/// that is left out is that of a deleted key that comes back: there the run
/// drops a tombstone that hid a value of a level below.
pub proof fn lemma_compaction_keeps_get(
    upper: Seq<Map<Seq<char>, Slot>>,
    sources: Seq<Map<Seq<char>, Slot>>,
    lower: Seq<Map<Seq<char>, Slot>>,
    key: Seq<char>,
)
    requires
        sources.len() > 0,
        !spec_resurfaces(upper, sources, lower, key),
    ensures
        spec_disk_get(spec_compacted(upper, sources, lower), key) == spec_disk_get(
            upper + sources + lower,
            key,
        ),
{
    lemma_compaction_and_get(upper, sources, lower, key);
}

/// Where a deleted key comes back, the answer for it does change: the
/// condition of `lemma_compaction_keeps_get` leaves out no more than it
/// must.
pub proof fn lemma_resurfacing_changes_get(
    upper: Seq<Map<Seq<char>, Slot>>,
    sources: Seq<Map<Seq<char>, Slot>>,
    lower: Seq<Map<Seq<char>, Slot>>,
    key: Seq<char>,
)
    requires
        sources.len() > 0,
        spec_resurfaces(upper, sources, lower, key),
    ensures
        spec_disk_get(upper + sources + lower, key) is None,
        spec_disk_get(spec_compacted(upper, sources, lower), key) == spec_disk_get(lower, key),
        spec_disk_get(spec_compacted(upper, sources, lower), key) is Some,
{
    lemma_compaction_and_get(upper, sources, lower, key);
}

/// What the bundles hold for a key before and after a compaction run.
proof fn lemma_compaction_and_get(
    upper: Seq<Map<Seq<char>, Slot>>,
    sources: Seq<Map<Seq<char>, Slot>>,
    lower: Seq<Map<Seq<char>, Slot>>,
    key: Seq<char>,
)
    requires
        sources.len() > 0,
    ensures
        !spec_resurfaces(upper, sources, lower, key) ==> spec_disk_get(
            spec_compacted(upper, sources, lower),
            key,
        ) == spec_disk_get(upper + sources + lower, key),
        spec_resurfaces(upper, sources, lower, key) ==> spec_disk_get(
            upper + sources + lower,
            key,
        ) is None && spec_disk_get(spec_compacted(upper, sources, lower), key) == spec_disk_get(
            lower,
            key,
        ),
{
    let oldest_first = sources.reverse();
    let n = sources.len() as int;
    let merged = spec_merge_all(oldest_first, n);
    assert(oldest_first.subrange(0, n).reverse() =~= sources);
    lemma_merge_all(oldest_first, n, key);
    let before = upper + sources + lower;
    let after = spec_compacted(upper, sources, lower);
    assert(before =~= upper + (sources + lower));
    lemma_find_concat(upper, sources + lower, key);
    lemma_find_concat(sources, lower, key);
    // What the bundles from the compacted level down hold before the run.
    let below_before = match spec_find(sources, key) {
        Some(slot) => Some(slot),
        None => spec_find(lower, key),
    };
    assert(spec_find(sources + lower, key) == below_before);
    // And after it.
    let below_after = if merged.contains_key(key) {
        Some(merged[key])
    } else {
        spec_find(lower, key)
    };
    if merged == Map::<Seq<char>, Slot>::empty() {
        lemma_find_concat(upper, lower, key);
        assert(!merged.contains_key(key));
        assert(spec_find(after, key) == match spec_find(upper, key) {
            Some(slot) => Some(slot),
            None => below_after,
        });
    } else {
        let single = seq![merged];
        assert(after =~= upper + (single + lower));
        lemma_find_concat(upper, single + lower, key);
        lemma_find_concat(single, lower, key);
        assert(single.drop_first() =~= Seq::<Map<Seq<char>, Slot>>::empty());
        assert(spec_find(single.drop_first(), key) is None);
        assert(spec_find(single, key) == if merged.contains_key(key) {
            Some(merged[key])
        } else {
            None::<Slot>
        });
        assert(spec_find(single + lower, key) == below_after);
        assert(spec_find(after, key) == match spec_find(upper, key) {
            Some(slot) => Some(slot),
            None => below_after,
        });
    }
    assert(spec_find(before, key) == match spec_find(upper, key) {
        Some(slot) => Some(slot),
        None => below_before,
    });
}

/// A bundle that is not chosen for removal stays in its level.
pub proof fn lemma_select_keeps(bundles: Seq<BundleView>, ids: Set<u128>, b: BundleView)
    requires
        bundles.contains(b),
        !ids.contains(b.id),
    ensures
        spec_select(bundles, ids, false).contains(b),
    decreases bundles.len(),
{
    let i = choose|i: int| 0 <= i < bundles.len() && bundles[i] == b;
    let before = spec_select(bundles.drop_last(), ids, false);
    if i == bundles.len() - 1 {
        assert(before.push(b).last() == b);
    } else {
        assert(bundles.drop_last()[i] == b);
        lemma_select_keeps(bundles.drop_last(), ids, b);
        let j = choose|j: int| 0 <= j < before.len() && before[j] == b;
        if !ids.contains(bundles.last().id) {
            assert(before.push(bundles.last())[j] == b);
        }
    }
}

/// Removing bundles by identity keeps every visible bundle whose identity
/// is not among them.
pub proof fn lemma_without_keeps(registry: RegistryView, ids: Set<u128>, b: BundleView)
    requires
        registry.visible().contains(b),
        !ids.contains(b.id),
    ensures
        registry.without(ids).visible().contains(b),
{
    let i = choose|i: int| 0 <= i < registry.visible().len() && registry.visible()[i] == b;
    let after = registry.without(ids);
    if i < registry.l0.len() {
        assert(registry.l0[i] == b);
        lemma_select_keeps(registry.l0, ids, b);
        let j = choose|j: int| 0 <= j < after.l0.len() && after.l0[j] == b;
        assert(after.visible()[j] == b);
    } else if i < registry.l0.len() + registry.l1.len() {
        assert(registry.l1[i - registry.l0.len()] == b);
        lemma_select_keeps(registry.l1, ids, b);
        let j = choose|j: int| 0 <= j < after.l1.len() && after.l1[j] == b;
        assert(after.visible()[after.l0.len() + j] == b);
    } else {
        assert(registry.l2[i - registry.l0.len() - registry.l1.len()] == b);
        lemma_select_keeps(registry.l2, ids, b);
        let j = choose|j: int| 0 <= j < after.l2.len() && after.l2[j] == b;
        assert(after.visible()[after.l0.len() + after.l1.len() + j] == b);
    }
}

/// A committed bundle is visible.
pub proof fn lemma_commit_shows(registry: RegistryView, bundle: BundleView, b: BundleView)
    ensures
        registry.commit(bundle).visible().contains(bundle),
        registry.visible().contains(b) ==> registry.commit(bundle).visible().contains(b),
{
    let after = registry.commit(bundle);
    match bundle.level {
        Level::L0 => {
            assert(after.visible()[0] == bundle);
        },
        Level::L1 => {
            assert(after.visible()[after.l0.len() as int] == bundle);
        },
        Level::L2 => {
            assert(after.visible()[(after.l0.len() + after.l1.len()) as int] == bundle);
        },
    }
    if registry.visible().contains(b) {
        let i = choose|i: int| 0 <= i < registry.visible().len() && registry.visible()[i] == b;
        match bundle.level {
            Level::L0 => {
                assert(after.visible()[i + 1] == b);
            },
            Level::L1 => {
                if i < registry.l0.len() {
                    assert(after.visible()[i] == b);
                } else {
                    assert(after.visible()[i + 1] == b);
                }
            },
            Level::L2 => {
                if i < registry.l0.len() + registry.l1.len() {
                    assert(after.visible()[i] == b);
                } else {
                    assert(after.visible()[i + 1] == b);
                }
            },
        }
    }
}

/// Looking at a level and merging its bundles take no bundle out of sight
/// and put none there: the levels stay as they are until the work on the
/// level ends.
pub proof fn lemma_only_finish_changes_levels(
    run: CompactorView,
    registry: RegistryView,
    files: Seq<Seq<u8>>,
    id: u128,
)
    ensures
        run.merge(registry, files, id).1.l0 == registry.l0,
        run.merge(registry, files, id).1.l1 == registry.l1,
        run.merge(registry, files, id).1.l2 == registry.l2,
        run.merge(registry, files, id).1.visible() == registry.visible(),
{
}

/// The bundle that stands for the merged ones is visible from the moment
/// at which they leave the registry: the end of the work on a level commits
/// it first, and its identity is none of theirs. So a reader sees the
/// merged bundles, or the bundle that was made of them.
pub proof fn lemma_output_visible_when_sources_leave(run: CompactorView, registry: RegistryView)
    requires
        run.wf(),
        run.stage == Stage::Writing,
    ensures
        registry.commit(run.output.unwrap().bundle).visible().contains(
            run.output.unwrap().bundle,
        ),
        run.finish(registry).1 == registry.commit(run.output.unwrap().bundle).without(
            spec_ids(run.sources),
        ),
        run.finish(registry).1.visible().contains(run.output.unwrap().bundle),
{
    let bundle = run.output.unwrap().bundle;
    lemma_commit_shows(registry, bundle, bundle);
    lemma_without_keeps(registry.commit(bundle), spec_ids(run.sources), bundle);
}

/// The end of the work on a level takes no bundle out of sight but those
/// that were merged, and where their merge was written out as a bundle,
/// that bundle is visible once they are gone.
pub proof fn lemma_finish_keeps_visible(run: CompactorView, registry: RegistryView, b: BundleView)
    requires
        run.wf(),
        registry.visible().contains(b),
        !spec_ids(run.sources).contains(b.id),
    ensures
        run.finish(registry).1.visible().contains(b),
        run.stage == Stage::Writing ==> run.finish(registry).1.visible().contains(
            run.output.unwrap().bundle,
        ),
{
    let ids = spec_ids(run.sources);
    match run.stage {
        Stage::Writing => {
            let bundle = run.output.unwrap().bundle;
            lemma_commit_shows(registry, bundle, b);
            lemma_without_keeps(registry.commit(bundle), ids, b);
            if !ids.contains(bundle.id) {
                lemma_without_keeps(registry.commit(bundle), ids, bundle);
            }
        },
        Stage::Removing => {
            lemma_without_keeps(registry, ids, b);
        },
        _ => {},
    }
}

/// No bundle of `bundles` has its identity in `ids`.
pub open spec fn none_listed(bundles: Seq<BundleView>, ids: Set<u128>) -> bool {
    forall|i: int| 0 <= i < bundles.len() ==> !ids.contains((#[trigger] bundles[i]).id)
}

/// Removing by identity from two runs of bundles removes from each.
pub proof fn lemma_select_concat(
    first: Seq<BundleView>,
    second: Seq<BundleView>,
    ids: Set<u128>,
    listed: bool,
)
    ensures
        spec_select(first + second, ids, listed) == spec_select(first, ids, listed) + spec_select(
            second,
            ids,
            listed,
        ),
    decreases second.len(),
{
    if second.len() == 0 {
        assert(first + second =~= first);
        assert(spec_select(first, ids, listed) + spec_select(second, ids, listed) =~= spec_select(
            first,
            ids,
            listed,
        ));
    } else {
        assert((first + second).drop_last() =~= first + second.drop_last());
        assert((first + second).last() == second.last());
        lemma_select_concat(first, second.drop_last(), ids, listed);
        let a = spec_select(first, ids, listed);
        let b = spec_select(second.drop_last(), ids, listed);
        assert((a + b).push(second.last()) =~= a + b.push(second.last()));
    }
}

/// Removing by identity keeps all of a run of which no bundle is listed.
pub proof fn lemma_select_none(bundles: Seq<BundleView>, ids: Set<u128>)
    requires
        none_listed(bundles, ids),
    ensures
        spec_select(bundles, ids, false) == bundles,
    decreases bundles.len(),
{
    if bundles.len() > 0 {
        let head = bundles.drop_last();
        assert forall|i: int| 0 <= i < head.len() implies !ids.contains((#[trigger] head[i]).id) by {
            assert(head[i] == bundles[i]);
        }
        lemma_select_none(head, ids);
        assert(head.push(bundles.last()) =~= bundles);
    } else {
        assert(spec_select(bundles, ids, false) =~= bundles);
    }
}

/// Removing by the identities of a run of bundles removes all of the run.
pub proof fn lemma_select_all(bundles: Seq<BundleView>, ids: Set<u128>)
    requires
        forall|i: int| 0 <= i < bundles.len() ==> ids.contains((#[trigger] bundles[i]).id),
    ensures
        spec_select(bundles, ids, false) == Seq::<BundleView>::empty(),
    decreases bundles.len(),
{
    if bundles.len() > 0 {
        let head = bundles.drop_last();
        assert forall|i: int| 0 <= i < head.len() implies ids.contains((#[trigger] head[i]).id) by {
            assert(head[i] == bundles[i]);
        }
        lemma_select_all(head, ids);
    }
}

/// Taking by identity takes all of a run of which every bundle is listed.
pub proof fn lemma_select_takes_all(bundles: Seq<BundleView>, ids: Set<u128>)
    requires
        forall|i: int| 0 <= i < bundles.len() ==> ids.contains((#[trigger] bundles[i]).id),
    ensures
        spec_select(bundles, ids, true) == bundles,
    decreases bundles.len(),
{
    if bundles.len() > 0 {
        let head = bundles.drop_last();
        assert forall|i: int| 0 <= i < head.len() implies ids.contains((#[trigger] head[i]).id) by {
            assert(head[i] == bundles[i]);
        }
        lemma_select_takes_all(head, ids);
        assert(head.push(bundles.last()) =~= bundles);
    } else {
        assert(spec_select(bundles, ids, true) =~= bundles);
    }
}

/// Taking by identity takes nothing of a run of which no bundle is listed.
pub proof fn lemma_select_takes_none(bundles: Seq<BundleView>, ids: Set<u128>)
    requires
        none_listed(bundles, ids),
    ensures
        spec_select(bundles, ids, true) == Seq::<BundleView>::empty(),
    decreases bundles.len(),
{
    if bundles.len() > 0 {
        let head = bundles.drop_last();
        assert forall|i: int| 0 <= i < head.len() implies !ids.contains((#[trigger] head[i]).id) by {
            assert(head[i] == bundles[i]);
        }
        lemma_select_takes_none(head, ids);
    }
}

/// The end of the work on a level puts the merged bundle where the merged
/// bundles were in the order of reading. Before it, the level holds the
/// bundles that were committed since the run looked at it, then those that
/// were merged; after it, the level holds the former only, and the merged
/// bundle stands in front of the next level. This holds where no other
/// bundle shares an identity with a merged one.
pub proof fn lemma_finish_replaces_sources(
    run: CompactorView,
    registry: RegistryView,
    newer: Seq<BundleView>,
)
    requires
        run.wf(),
        run.stage == Stage::Writing,
        registry.level(run.level) == newer + run.sources.reverse(),
        none_listed(newer, spec_ids(run.sources)),
        forall|level: Level|
            level != run.level ==> none_listed(
                #[trigger] registry.level(level),
                spec_ids(run.sources),
            ),
    ensures
        ({
            let bundle = run.output.unwrap().bundle;
            let after = run.finish(registry).1;
            &&& after.level(run.level) == newer
            &&& after.level(bundle.level) == seq![bundle] + registry.level(bundle.level)
            &&& forall|level: Level|
                level != run.level && level != bundle.level ==> after.level(level)
                    == registry.level(level)
        }),
{
    let ids = spec_ids(run.sources);
    let bundle = run.output.unwrap().bundle;
    let committed = registry.commit(bundle);
    let merged = run.sources.reverse();
    assert forall|i: int| 0 <= i < merged.len() implies ids.contains((#[trigger] merged[i]).id) by {
        let j = run.sources.len() - 1 - i;
        assert(merged[i] == run.sources[j]);
    }
    lemma_select_concat(newer, merged, ids, false);
    lemma_select_none(newer, ids);
    lemma_select_all(merged, ids);
    assert(newer + Seq::<BundleView>::empty() =~= newer);
    let target = seq![bundle] + registry.level(bundle.level);
    assert(none_listed(registry.level(bundle.level), ids));
    assert forall|i: int| 0 <= i < target.len() implies !ids.contains((#[trigger] target[i]).id) by {
        if i > 0 {
            assert(target[i] == registry.level(bundle.level)[i - 1]);
        }
    }
    lemma_select_none(target, ids);
    assert(committed.level(bundle.level) == target);
    assert(committed.level(run.level) == newer + merged);
    assert forall|level: Level| level != run.level && level != bundle.level implies run.finish(
        registry,
    ).1.level(level) == registry.level(level) by {
        assert(none_listed(registry.level(level), ids));
        lemma_select_none(registry.level(level), ids);
    }
}

} // verus!
