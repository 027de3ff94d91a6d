//! What holds of a whole history of the store: after any writes, flushes
//! and compaction runs, a read returns what the last write to its key left.
//! Of the compaction runs only this is asked: that none drops a tombstone
//! which hides a value of a level below.
use crate::db::spec_is_full;
use crate::memtable::Slot;
use crate::store_laws::lemma_compaction_keeps_get;
use crate::store_laws::spec_compacted;
use crate::store_laws::spec_disk_get;
use crate::store_laws::spec_find;
use crate::store_laws::spec_resurfaces;
use crate::store_laws::StoreModel;
use crate::store_laws::Write;
use vstd::prelude::*;

verus! {

/// What happens to the store: a write, with the flush that it may bring,
/// or a compaction run on the bundles `sources`, which stand between the
/// newer bundles `upper` and the bundles `lower` of the levels below.
pub enum Step {
    Write(Write),
    Compact {
        upper: Seq<Map<Seq<char>, Slot>>,
        sources: Seq<Map<Seq<char>, Slot>>,
        lower: Seq<Map<Seq<char>, Slot>>,
    },
}

/// What the store holds after the steps, as its users think of it: a put
/// sets the value of its key, a delete takes its key out, and a compaction
/// run changes nothing.
pub open spec fn spec_contents(steps: Seq<Step>) -> Map<Seq<char>, Seq<char>>
    decreases steps.len(),
{
    if steps.len() == 0 {
        Map::empty()
    } else {
        let before = spec_contents(steps.drop_last());
        match steps.last() {
            Step::Write(Write::Put(key, value)) => before.insert(key, value),
            Step::Write(Write::Delete(key)) => before.remove(key),
            Step::Compact { .. } => before,
        }
    }
}

impl StoreModel {
    /// A store that has seen nothing: no table holds a key, and there is no
    /// bundle.
    pub open spec fn fresh(limit: nat) -> StoreModel {
        StoreModel { active: Map::empty(), frozen: Map::empty(), disk: Seq::empty(), limit }
    }

    /// What the frozen table holds, the bundles tell too: the table was
    /// written to disk before the write that froze it returned, and
    /// nothing since has changed what the bundles tell of its keys.
    pub open spec fn frozen_on_disk(self) -> bool {
        forall|key: Seq<char>| #[trigger]
            self.frozen.contains_key(key) ==> spec_disk_get(self.disk, key)
                == self.frozen[key].value()
    }

    /// The step can be taken: a compaction run works on bundles that are
    /// there, and it lets no deleted key come back.
    pub open spec fn allows(self, step: Step) -> bool {
        match step {
            Step::Write(_) => true,
            Step::Compact { upper, sources, lower } => {
                &&& self.disk == upper + sources + lower
                &&& sources.len() > 0
                &&& forall|key: Seq<char>| !#[trigger] spec_resurfaces(upper, sources, lower, key)
            },
        }
    }

    /// The store after the step.
    pub open spec fn step(self, step: Step) -> StoreModel {
        match step {
            Step::Write(w) => self.write(w),
            Step::Compact { upper, sources, lower } => StoreModel {
                disk: spec_compacted(upper, sources, lower),
                ..self
            },
        }
    }

    /// The store after the steps.
    pub open spec fn run(self, steps: Seq<Step>) -> StoreModel
        decreases steps.len(),
    {
        if steps.len() == 0 {
            self
        } else {
            self.run(steps.drop_last()).step(steps.last())
        }
    }

    /// Each step can be taken where the steps before it have led.
    pub open spec fn allows_all(self, steps: Seq<Step>) -> bool
        decreases steps.len(),
    {
        if steps.len() == 0 {
            true
        } else {
            self.allows_all(steps.drop_last()) && self.run(steps.drop_last()).allows(steps.last())
        }
    }
}

/// A write changes the answer for its own key to what was written and
/// leaves the answer for every other key as it was, whether or not it
/// freezes the writable table and brings a flush.
pub proof fn lemma_write_keeps_other_answers(store: StoreModel, w: Write, key: Seq<char>)
    requires
        store.frozen_on_disk(),
    ensures
        store.write(w).frozen_on_disk(),
        store.write(w).get(key) == if w.key() == key {
            w.slot().value()
        } else {
            store.get(key)
        },
{
    let written = store.active.insert(w.key(), w.slot());
    let after = store.write(w);
    if spec_is_full(written, store.limit) {
        assert(after.disk[0] == written);
        assert(after.disk.drop_first() =~= store.disk);
        assert forall|k: Seq<char>| #[trigger] after.frozen.contains_key(k) implies spec_disk_get(
            after.disk,
            k,
        ) == after.frozen[k].value() by {
            assert(spec_find(after.disk, k) == Some(written[k]));
        }
        if w.key() != key && !store.active.contains_key(key) {
            assert(spec_find(after.disk, key) == spec_find(store.disk, key));
            if store.frozen.contains_key(key) {
                assert(spec_disk_get(store.disk, key) == store.frozen[key].value());
            }
        }
    } else {
        assert forall|k: Seq<char>| #[trigger] after.frozen.contains_key(k) implies spec_disk_get(
            after.disk,
            k,
        ) == after.frozen[k].value() by {
            assert(store.frozen.contains_key(k));
        }
    }
}

/// A step changes the answer for the key that it writes, and no other: a
/// compaction run that lets no deleted key come back changes none.
pub proof fn lemma_get_after_step(store: StoreModel, step: Step, key: Seq<char>)
    requires
        store.frozen_on_disk(),
        store.allows(step),
    ensures
        store.step(step).frozen_on_disk(),
        store.step(step).get(key) == match step {
            Step::Write(w) => if w.key() == key {
                w.slot().value()
            } else {
                store.get(key)
            },
            Step::Compact { .. } => store.get(key),
        },
{
    match step {
        Step::Write(w) => {
            lemma_write_keeps_other_answers(store, w, key);
        },
        Step::Compact { upper, sources, lower } => {
            let after = store.step(step);
            assert(!spec_resurfaces(upper, sources, lower, key));
            lemma_compaction_keeps_get(upper, sources, lower, key);
            assert forall|k: Seq<char>| #[trigger] after.frozen.contains_key(k) implies spec_disk_get(
                after.disk,
                k,
            ) == after.frozen[k].value() by {
                assert(!spec_resurfaces(upper, sources, lower, k));
                lemma_compaction_keeps_get(upper, sources, lower, k);
                assert(store.frozen.contains_key(k));
            }
        },
    }
}

/// After any history of writes, flushes and compaction runs on a store
/// that had seen nothing, a read of a key returns the value of the last
/// put to the key, and nothing where the key was never put or a delete of
/// it came last.
pub proof fn lemma_reads_follow_history(limit: nat, steps: Seq<Step>, key: Seq<char>)
    requires
        StoreModel::fresh(limit).allows_all(steps),
    ensures
        StoreModel::fresh(limit).run(steps).frozen_on_disk(),
        StoreModel::fresh(limit).run(steps).get(key) == if spec_contents(steps).contains_key(key) {
            Some(spec_contents(steps)[key])
        } else {
            None
        },
    decreases steps.len(),
{
    let store = StoreModel::fresh(limit);
    if steps.len() > 0 {
        lemma_reads_follow_history(limit, steps.drop_last(), key);
        lemma_get_after_step(store.run(steps.drop_last()), steps.last(), key);
    } else {
        assert(spec_find(store.disk, key) is None);
    }
}

/// The same from any state of the store in which the frozen table is on
/// disk: a read of a key that the steps wrote returns what they left, and
/// a read of any other key returns what it returned before.
pub proof fn lemma_reads_follow_steps(store: StoreModel, steps: Seq<Step>, key: Seq<char>)
    requires
        store.frozen_on_disk(),
        store.allows_all(steps),
    ensures
        store.run(steps).frozen_on_disk(),
        store.run(steps).get(key) == match spec_last_step(steps, key) {
            Some(slot) => slot.value(),
            None => store.get(key),
        },
    decreases steps.len(),
{
    if steps.len() > 0 {
        lemma_reads_follow_steps(store, steps.drop_last(), key);
        lemma_get_after_step(store.run(steps.drop_last()), steps.last(), key);
    }
}

/// The slot of the last write to `key` among the steps, if there is one.
pub open spec fn spec_last_step(steps: Seq<Step>, key: Seq<char>) -> Option<Slot>
    decreases steps.len(),
{
    if steps.len() == 0 {
        None
    } else {
        match steps.last() {
            Step::Write(w) => if w.key() == key {
                Some(w.slot())
            } else {
                spec_last_step(steps.drop_last(), key)
            },
            Step::Compact { .. } => spec_last_step(steps.drop_last(), key),
        }
    }
}

/// A frozen table that is the newest bundle is on disk.
pub proof fn lemma_durable_is_on_disk(store: StoreModel)
    requires
        store.frozen_is_durable(),
    ensures
        store.frozen_on_disk(),
{
    assert forall|key: Seq<char>| #[trigger] store.frozen.contains_key(key) implies spec_disk_get(
        store.disk,
        key,
    ) == store.frozen[key].value() by {
        assert(store.disk[0] == store.frozen);
        assert(spec_find(store.disk, key) == Some(store.frozen[key]));
    }
}

} // verus!
