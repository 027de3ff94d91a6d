//! Compaction: every bundle of a level is merged into one bundle of the
//! next level, which is committed before the merged bundles leave the
//! registry. The work is a sequence of steps; between them the caller reads,
//! writes and deletes the files that the steps name.
use crate::deserialization::spec_decode_table;
use crate::encoding::key_lt;
use crate::error::DbError;
use crate::file_handling::file_bundle::BundleView;
use crate::file_handling::file_bundle::FileBundle;
use crate::file_handling::file_bundle::FileBundlesLevelled;
use crate::file_handling::file_bundle::Level;
use crate::file_handling::file_bundle::RegistryView;
use crate::file_handling::file_bundle::ShouldCompact;
use crate::file_handling::file_bundle::views_of;
use crate::file_handling::file_bundle::FileBundleId;
use crate::file_handling::flushing::flush_with_id;
use crate::file_handling::flushing::FlushPlan;
use crate::file_handling::flushing::PlanView;
use crate::file_handling::flushing::spec_flush;
use crate::memtable::KeyValue;
use crate::memtable::lemma_insert_map;
use crate::memtable::lemma_key_order_of_sorted;
use crate::memtable::map_of;
use crate::memtable::MemTable;
use crate::memtable::MemTableBase;
use crate::memtable::MemValue;
use crate::memtable::Record;
use crate::memtable::records_of;
use crate::memtable::Slot;
use crate::memtable::sorted_records;
use crate::memtable::strictly_sorted;
use std::collections::HashSet;
use vstd::prelude::*;

verus! {

/// A table with a newer one merged into it: a value of the newer table
/// stands in place of what was there, and a tombstone of the newer table
/// takes the key out.
pub open spec fn spec_merge_newer(merger: Map<Seq<char>, Slot>, newer: Map<Seq<char>, Slot>) -> Map<
    Seq<char>,
    Slot,
> {
    Map::new(
        |k: Seq<char>|
            if newer.contains_key(k) {
                newer[k] is Put
            } else {
                merger.contains_key(k)
            },
        |k: Seq<char>|
            if newer.contains_key(k) {
                newer[k]
            } else {
                merger[k]
            },
    )
}

/// The first `n` of `tables`, oldest first, merged: the oldest as it is,
/// and each newer one merged into what came before.
pub open spec fn spec_merge_all(tables: Seq<Map<Seq<char>, Slot>>, n: int) -> Map<Seq<char>, Slot>
    decreases n,
{
    if n <= 0 {
        Map::empty()
    } else if n == 1 {
        tables[0]
    } else {
        spec_merge_newer(spec_merge_all(tables, n - 1), tables[n - 1])
    }
}

/// The tables that the first `n` data files hold, or nothing where one of
/// them does not decode.
pub open spec fn spec_decode_all(files: Seq<Seq<u8>>, n: int) -> Option<
    Seq<Map<Seq<char>, Slot>>,
>
    decreases n,
{
    if n <= 0 {
        Some(Seq::empty())
    } else {
        match (spec_decode_all(files, n - 1), spec_decode_table(files[n - 1])) {
            (Some(tables), Some(table)) => Some(tables.push(table)),
            _ => None,
        }
    }
}

/// The bytes of a vector of files.
pub open spec fn bytes_of(files: Seq<Vec<u8>>) -> Seq<Seq<u8>> {
    Seq::new(files.len(), |i: int| files[i]@)
}

/// Merges `newer` into `merger`: its values are put, its tombstones take
/// their keys out.
pub fn merge_newer(merger: &mut MemTableBase, newer: MemTableBase)
    requires
        old(merger).wf(),
        newer.wf(),
    ensures
        final(merger).wf(),
        final(merger)@ == spec_merge_newer(old(merger)@, newer@),
{
    proof {
        newer.lemma_view();
    }
    let ghost records = newer.records();
    let ghost start = merger@;
    let mut entries: Vec<KeyValue> = newer.into_entries();
    let ghost n = records.len() as int;
    assert(records.subrange(n, n) =~= Seq::<Record>::empty());
    assert(map_of(Seq::<Record>::empty()) =~= Map::<Seq<char>, Slot>::empty());
    assert(merger@ =~= spec_merge_newer(start, map_of(records.subrange(n, n))));
    while entries.len() > 0
        invariant
            merger.wf(),
            strictly_sorted(records),
            n == records.len(),
            entries@.len() <= n,
            records_of(entries@) == records.subrange(0, entries@.len() as int),
            merger@ == spec_merge_newer(start, map_of(records.subrange(entries@.len() as int, n))),
        decreases entries@.len(),
    {
        let ghost i = entries@.len() - 1;
        let ghost before = records_of(entries@);
        let ghost tail = records.subrange(i + 1, n);
        let ghost merged = merger@;
        let entry = entries.pop().unwrap();
        proof {
            assert(entry@ == before[i]);
            assert(before[i] == records[i]);
            assert(records_of(entries@) =~= records.subrange(0, i));
            lemma_key_order_of_sorted(records, i, i + 1);
            assert(tail.insert(0, records[i]) =~= records.subrange(i, n));
            assert forall|j: int| 0 <= j < tail.len() implies key_lt(
                records[i].0,
                (#[trigger] tail[j]).0,
            ) by {
                assert(tail[j] == records[i + 1 + j]);
            }
            lemma_insert_map(tail, 0, records[i].0, records[i].1);
        }
        let KeyValue { key, value } = entry;
        match value {
            MemValue::Put(text) => {
                merger.insert(key, MemValue::Put(text));
            },
            MemValue::Delete => {
                merger.remove(key.as_str());
            },
        }
        assert(merger@ =~= spec_merge_newer(start, map_of(records.subrange(i, n))));
    }
    assert(records.subrange(0, n) =~= records);
}

/// Decodes the data files of the bundles of a level, oldest first, and
/// merges them into one table. The oldest table is taken as it is; of each
/// newer one the values are put and the tombstones take their keys out.
pub fn merge_data_files(files: Vec<Vec<u8>>) -> (r: Result<MemTableBase, DbError>)
    ensures
        match spec_decode_all(bytes_of(files@), files@.len() as int) {
            Some(tables) => r matches Ok(merged) && merged.wf() && merged@ == spec_merge_all(
                tables,
                tables.len() as int,
            ),
            None => r matches Err(e) && e == DbError::Decode,
        },
{
    let ghost all = bytes_of(files@);
    let n: usize = files.len();
    let mut left = files;
    // The files are taken from the back, so the tables are collected newest
    // first and merged from the back of that list.
    let mut tables: Vec<MemTableBase> = Vec::new();
    while left.len() > 0
        invariant
            all == bytes_of(files@),
            n == files@.len(),
            left@.len() <= n,
            n == all.len(),
            bytes_of(left@) == all.subrange(0, left@.len() as int),
            tables@.len() == n - left@.len(),
            forall|j: int|
                0 <= j < tables@.len() ==> (#[trigger] tables@[j]).wf() && Some(tables@[j]@)
                    == spec_decode_table(all[n - 1 - j]),
        decreases left@.len(),
    {
        let ghost i = left@.len() - 1;
        let ghost before = bytes_of(left@);
        let file = left.pop().unwrap();
        proof {
            assert(file@ == before[i]);
            assert(before[i] == all[i]);
            assert(bytes_of(left@) =~= all.subrange(0, i));
        }
        match MemTable::try_from_bytes(file) {
            Ok(table) => {
                tables.push(table.into_inner());
            },
            Err(e) => {
                proof {
                    lemma_decode_all_fails(all, i, n as int);
                }
                return Err(e);
            },
        }
    }
    proof {
        assert forall|j: int| 0 <= j < n implies spec_decode_table(#[trigger] all[j]) is Some by {
            assert(tables@[n - 1 - j].wf());
        }
    }
    proof {
        lemma_decode_all_succeeds(all, n as int);
    }
    let ghost decoded = spec_decode_all(all, n as int).unwrap();
    let mut merger = match tables.pop() {
        Some(oldest) => oldest,
        None => {
            let empty = MemTableBase::new();
            return Ok(empty);
        },
    };
    let ghost mut done: int = 1;
    while tables.len() > 0
        invariant
            n == all.len(),
            decoded.len() == n,
            1 <= done <= n,
            tables@.len() == n - done,
            merger.wf(),
            merger@ == spec_merge_all(decoded, done),
            forall|j: int|
                0 <= j < tables@.len() ==> (#[trigger] tables@[j]).wf() && tables@[j]@
                    == decoded[n - 1 - j],
        decreases tables@.len(),
    {
        let newer = tables.pop().unwrap();
        assert(newer@ == decoded[done]);
        merge_newer(&mut merger, newer);
        proof {
            done = done + 1;
        }
    }
    Ok(merger)
}

/// Where one file does not decode, the files do not decode together.
proof fn lemma_decode_all_fails(files: Seq<Seq<u8>>, i: int, n: int)
    requires
        0 <= i < n,
        spec_decode_table(files[i]) is None,
    ensures
        spec_decode_all(files, n) is None,
    decreases n,
{
    if i < n - 1 {
        lemma_decode_all_fails(files, i, n - 1);
    }
}

/// Where every file decodes, the files decode to their tables in order.
proof fn lemma_decode_all_succeeds(files: Seq<Seq<u8>>, n: int)
    requires
        0 <= n,
        forall|j: int| 0 <= j < n ==> spec_decode_table(#[trigger] files[j]) is Some,
    ensures
        spec_decode_all(files, n) is Some,
        spec_decode_all(files, n).unwrap().len() == n,
        forall|j: int|
            0 <= j < n ==> Some(#[trigger] spec_decode_all(files, n).unwrap()[j])
                == spec_decode_table(files[j]),
    decreases n,
{
    if n > 0 {
        lemma_decode_all_succeeds(files, n - 1);
    }
}

/// The identities of a sequence of bundles.
pub open spec fn spec_ids(bundles: Seq<BundleView>) -> Set<u128> {
    Set::new(|id: u128| exists|i: int| 0 <= i < bundles.len() && (#[trigger] bundles[i]).id == id)
}

/// The names of the data files of a sequence of bundles.
pub open spec fn spec_data_names(bundles: Seq<BundleView>) -> Seq<Seq<char>> {
    Seq::new(bundles.len(), |i: int| bundles[i].data)
}

/// Where a compaction run stands.
#[derive(Debug, Copy, Clone, PartialEq, Eq, Structural)]
pub enum Stage {
    /// A level is to be looked at.
    Ready,
    /// The data files of the level's bundles are being read.
    Loading,
    /// The files of the merged bundle are being written.
    Writing,
    /// Nothing was left of the merged bundles: they are only to be removed.
    Removing,
    /// The run is over.
    Finished,
}

/// What the caller is to do before the next step.
#[derive(Debug)]
pub enum CompactionAction {
    /// Nothing: the run is over.
    Done,
    /// Read these data files, in this order, and hand their bytes to
    /// `merge`.
    Load(Vec<String>),
    /// Create the three files of `output` with its bytes, then call
    /// `finish`.
    Write,
    /// Call `finish`.
    Remove,
    /// Delete the three files of each of these bundles, then call `begin`.
    Delete(Vec<FileBundle>),
}

/// An action as mathematical values.
pub enum ActionView {
    Done,
    Load(Seq<Seq<char>>),
    Write,
    Remove,
    Delete(Seq<BundleView>),
}

impl View for CompactionAction {
    type V = ActionView;

    open spec fn view(&self) -> ActionView {
        match self {
            CompactionAction::Done => ActionView::Done,
            CompactionAction::Load(names) => ActionView::Load(
                Seq::new(names@.len(), |i: int| names@[i]@),
            ),
            CompactionAction::Write => ActionView::Write,
            CompactionAction::Remove => ActionView::Remove,
            CompactionAction::Delete(bundles) => ActionView::Delete(views_of(bundles@)),
        }
    }
}

/// What a step answered, as mathematical values.
pub open spec fn outcome_of(r: Result<CompactionAction, DbError>) -> Result<ActionView, DbError> {
    match r {
        Ok(action) => Ok(action@),
        Err(e) => Err(e),
    }
}

/// A compaction run as mathematical values.
pub struct CompactorView {
    pub level: Level,
    pub stage: Stage,
    pub sources: Seq<BundleView>,
    pub output: Option<PlanView>,
}

impl CompactorView {
    /// The identity of the merged bundle, where there is one.
    pub open spec fn output_id(self) -> u128 {
        match self.output {
            Some(plan) => plan.bundle.id,
            None => 0,
        }
    }

    /// The run, over.
    pub open spec fn finished(self) -> CompactorView {
        CompactorView { stage: Stage::Finished, sources: Seq::empty(), output: None, ..self }
    }

    /// Looking at a level: the last level and an empty level end the run;
    /// otherwise the bundles of the level are taken, oldest first, and
    /// their data files are to be read.
    pub open spec fn begin(self, registry: RegistryView) -> (CompactorView, Result<
        ActionView,
        DbError,
    >) {
        match self.stage {
            Stage::Finished => (self, Ok(ActionView::Done)),
            Stage::Ready => if self.level.spec_next_level() is None || registry.level(
                self.level,
            ).len() == 0 {
                (self.finished(), Ok(ActionView::Done))
            } else {
                let sources = registry.level(self.level).reverse();
                (
                    CompactorView { stage: Stage::Loading, sources, output: None, ..self },
                    Ok(ActionView::Load(spec_data_names(sources))),
                )
            },
            _ => (self, Err(DbError::Invariant)),
        }
    }

    /// While files are written there is a merged bundle: it belongs to the
    /// level after the one that is compacted, carries the names of its
    /// number, and its identity is none of those of the bundles that were
    /// merged.
    pub open spec fn wf(self) -> bool {
        &&& self.stage == Stage::Writing ==> self.output is Some
            && self.level.spec_next_level() == Some(self.output.unwrap().bundle.level)
            && self.output.unwrap().bundle.named() && !spec_ids(self.sources).contains(
            self.output.unwrap().bundle.id,
        )
        &&& self.stage == Stage::Loading ==> self.level.spec_next_level() is Some
    }

    /// Merging what the data files hold: a file that does not decode ends
    /// the run with an error; an empty result leaves the bundles to be
    /// removed; otherwise the result is written out as a bundle of the next
    /// level, with identity `id`, which the registry names. An identity
    /// that one of the merged bundles has already ends the run with an
    /// error.
    pub open spec fn merge(self, registry: RegistryView, files: Seq<Seq<u8>>, id: u128) -> (
        CompactorView,
        RegistryView,
        Result<ActionView, DbError>,
    ) {
        if self.stage != Stage::Loading || files.len() != self.sources.len() {
            (self, registry, Err(DbError::Invariant))
        } else {
            match spec_decode_all(files, files.len() as int) {
                None => (self.finished(), registry, Err(DbError::Decode)),
                Some(tables) => {
                    let merged = spec_merge_all(tables, tables.len() as int);
                    let next_level = self.level.spec_next_level().unwrap();
                    if merged == Map::<Seq<char>, Slot>::empty() {
                        (
                            CompactorView { stage: Stage::Removing, ..self },
                            registry,
                            Ok(ActionView::Remove),
                        )
                    } else {
                        match spec_flush(sorted_records(merged), registry, next_level, id) {
                            Err(e) => (self.finished(), registry, Err(e)),
                            Ok(plan) => if spec_ids(self.sources).contains(id) {
                                (
                                    self.finished(),
                                    registry.named(next_level),
                                    Err(DbError::Invariant),
                                )
                            } else {
                                (
                                    CompactorView {
                                        stage: Stage::Writing,
                                        output: Some(plan),
                                        ..self
                                    },
                                    registry.named(next_level),
                                    Ok(ActionView::Write),
                                )
                            },
                        }
                    }
                },
            }
        }
    }

    /// Finishing a level: the merged bundle, where there is one, is
    /// committed first; then the bundles that were merged leave the
    /// registry, and their files are to be deleted. Where the commit calls
    /// for it, the next level is looked at next.
    pub open spec fn finish(self, registry: RegistryView) -> (
        CompactorView,
        RegistryView,
        Result<ActionView, DbError>,
    ) {
        match self.stage {
            Stage::Writing => {
                let bundle = self.output.unwrap().bundle;
                let committed = registry.commit(bundle);
                let ids = spec_ids(self.sources);
                let next = if RegistryView::crossed(
                    bundle.level,
                    committed.level(bundle.level).len(),
                ) == ShouldCompact::Yes {
                    CompactorView {
                        level: bundle.level,
                        stage: Stage::Ready,
                        sources: Seq::empty(),
                        output: None,
                    }
                } else {
                    self.finished()
                };
                (next, committed.without(ids), Ok(ActionView::Delete(committed.chosen(ids))))
            },
            Stage::Removing => {
                let ids = spec_ids(self.sources);
                (
                    self.finished(),
                    registry.without(ids),
                    Ok(ActionView::Delete(registry.chosen(ids))),
                )
            },
            _ => (self, registry, Err(DbError::Invariant)),
        }
    }
}

/// One compaction run: it starts at the first level and goes on to the next
/// level while the commits call for it.
#[derive(Debug)]
pub struct Compactor {
    level: Level,
    stage: Stage,
    sources: Vec<FileBundle>,
    output: Option<FlushPlan>,
}

impl View for Compactor {
    type V = CompactorView;

    closed spec fn view(&self) -> CompactorView {
        CompactorView {
            level: self.level,
            stage: self.stage,
            sources: views_of(self.sources@),
            output: match self.output {
                Some(plan) => Some(plan@),
                None => None,
            },
        }
    }
}

impl Compactor {
    /// The run is in a state that its steps keep.
    pub open spec fn wf(&self) -> bool {
        self@.wf()
    }

    /// A run that is to look at the first level.
    pub fn new() -> (r: Self)
        ensures
            r.wf(),
            r@ == (CompactorView {
                level: Level::L0,
                stage: Stage::Ready,
                sources: Seq::empty(),
                output: None,
            }),
    {
        let r = Compactor { level: Level::L0, stage: Stage::Ready, sources: Vec::new(), output: None };
        assert(r@.sources =~= Seq::empty());
        r
    }

    /// Where the run stands.
    pub fn stage(&self) -> (stage: Stage)
        ensures
            stage == self@.stage,
    {
        self.stage
    }

    /// The level that the run is at.
    pub fn level(&self) -> (level: Level)
        ensures
            level == self@.level,
    {
        self.level
    }

    /// The merged bundle whose files are to be written.
    pub fn output(&self) -> (plan: Option<&FlushPlan>)
        ensures
            match plan {
                Some(p) => self@.output == Some(p@),
                None => self@.output is None,
            },
    {
        self.output.as_ref()
    }

    fn end(&mut self)
        ensures
            final(self)@ == old(self)@.finished(),
            final(self).wf(),
    {
        self.stage = Stage::Finished;
        self.sources = Vec::new();
        self.output = None;
        assert(self@.sources =~= Seq::empty());
    }

    /// Looks at the level that the run is at. The last level and an empty
    /// level end the run. Otherwise the answer names the data files of the
    /// level's bundles, oldest first.
    pub fn begin(&mut self, registry: &FileBundlesLevelled) -> (r: Result<CompactionAction, DbError>)
        requires
            old(self).wf(),
        ensures
            final(self).wf(),
            (final(self)@, outcome_of(r)) == old(self)@.begin(registry@),
    {
        match self.stage {
            Stage::Finished => Ok(CompactionAction::Done),
            Stage::Ready => {
                if self.level.next_level().is_none() || registry.level_len(self.level) == 0 {
                    self.end();
                    return Ok(CompactionAction::Done);
                }
                let sources = registry.oldest_first(self.level);
                let mut names: Vec<String> = Vec::with_capacity(sources.len());
                let mut i: usize = 0;
                while i < sources.len()
                    invariant
                        i <= sources@.len(),
                        names@.len() == i,
                        forall|j: int|
                            0 <= j < i ==> (#[trigger] names@[j])@ == sources@[j]@.data,
                    decreases sources@.len() - i,
                {
                    names.push(sources[i].main_data_file_path().clone());
                    i += 1;
                }
                self.stage = Stage::Loading;
                self.sources = sources;
                self.output = None;
                let action = CompactionAction::Load(names);
                assert(action@ == ActionView::Load(spec_data_names(self@.sources))) by {
                    assert(Seq::new(names@.len(), |i: int| names@[i]@) =~= spec_data_names(
                        self@.sources,
                    ));
                }
                Ok(action)
            },
            _ => Err(DbError::Invariant),
        }
    }

    /// Takes the bytes of the data files that `begin` named, in that order,
    /// and merges what they hold. Where nothing is left, the answer is
    /// `Remove`. Otherwise the merged table is written out as a bundle of
    /// the next level with the identity `id`, which the registry names,
    /// and the answer is `Write`. An identity that one of the merged bundles
    /// has already is refused.
    pub fn merge_with_id(
        &mut self,
        registry: &mut FileBundlesLevelled,
        files: Vec<Vec<u8>>,
        id: FileBundleId,
    ) -> (r: Result<CompactionAction, DbError>)
        requires
            old(self).wf(),
        ensures
            final(self).wf(),
            (final(self)@, final(registry)@, outcome_of(r)) == old(self)@.merge(
                old(registry)@,
                bytes_of(files@),
                id.0,
            ),
            old(registry)@.wf() ==> final(registry)@.wf(),
            old(registry)@.wf() && outcome_of(r) == Ok::<ActionView, DbError>(ActionView::Write)
                ==> old(registry)@.fresh(final(self)@.output.unwrap().bundle) && final(registry)@.accepts(final(self)@.output.unwrap().bundle),
    {
        let ghost before = self@;
        let ghost levels = registry@;
        if self.stage != Stage::Loading || files.len() != self.sources.len() {
            assert((self@, registry@, Err::<ActionView, DbError>(DbError::Invariant))
                == before.merge(levels, bytes_of(files@), id.0));
            return Err(DbError::Invariant);
        }
        let next_level = match self.level.next_level() {
            Some(level) => level,
            None => {
                return Err(DbError::Invariant);
            },
        };
        let merged = match merge_data_files(files) {
            Ok(merged) => merged,
            Err(e) => {
                self.end();
                assert((self@, registry@, Err::<ActionView, DbError>(e)) == before.merge(
                    levels,
                    bytes_of(files@),
                    id.0,
                ));
                return Err(e);
            },
        };
        proof {
            merged.lemma_view();
            let tables = spec_decode_all(bytes_of(files@), files@.len() as int).unwrap();
            lemma_decode_all_len(bytes_of(files@), files@.len() as int);
            crate::memtable::lemma_sorted_determined(
                merged.records(),
                sorted_records(spec_merge_all(tables, tables.len() as int)),
            );
        }
        if merged.is_empty() {
            assert(merged@ =~= Map::<Seq<char>, Slot>::empty());
            self.stage = Stage::Removing;
            assert((self@, registry@, Ok::<ActionView, DbError>(ActionView::Remove))
                == before.merge(levels, bytes_of(files@), id.0));
            return Ok(CompactionAction::Remove);
        }
        proof {
            crate::memtable::lemma_map_of_at(merged.records(), 0);
        }
        let ids = self.source_ids();
        match flush_with_id(MemTable(merged), registry, next_level, id) {
            Ok(plan) => {
                if ids.contains(&plan.bundle().id().0) {
                    self.end();
                    assert((self@, registry@, Err::<ActionView, DbError>(DbError::Invariant))
                        == before.merge(levels, bytes_of(files@), id.0));
                    return Err(DbError::Invariant);
                }
                self.stage = Stage::Writing;
                self.output = Some(plan);
                assert((self@, registry@, Ok::<ActionView, DbError>(ActionView::Write))
                    == before.merge(levels, bytes_of(files@), id.0));
                Ok(CompactionAction::Write)
            },
            Err(e) => {
                self.end();
                assert((self@, registry@, Err::<ActionView, DbError>(e)) == before.merge(
                    levels,
                    bytes_of(files@),
                    id.0,
                ));
                Err(e)
            },
        }
    }

    /// Takes the bytes of the data files that `begin` named, in that order,
    /// and merges what they hold, as `merge_with_id` does with a fresh
    /// random identity.
    pub fn merge(&mut self, registry: &mut FileBundlesLevelled, files: Vec<Vec<u8>>) -> (r: Result<
        CompactionAction,
        DbError,
    >)
        requires
            old(self).wf(),
        ensures
            final(self).wf(),
            exists|id: u128|
                (final(self)@, final(registry)@, outcome_of(r)) == #[trigger] old(self)@.merge(
                    old(registry)@,
                    bytes_of(files@),
                    id,
                ),
            outcome_of(r) == Ok::<ActionView, DbError>(ActionView::Write) ==> (
                final(self)@,
                final(registry)@,
                outcome_of(r),
            ) == old(self)@.merge(old(registry)@, bytes_of(files@), final(self)@.output_id()),
            old(registry)@.wf() ==> final(registry)@.wf(),
            old(registry)@.wf() && outcome_of(r) == Ok::<ActionView, DbError>(ActionView::Write)
                ==> old(registry)@.fresh(final(self)@.output.unwrap().bundle) && final(registry)@.accepts(final(self)@.output.unwrap().bundle),
    {
        let id = FileBundleId::new();
        self.merge_with_id(registry, files, id)
    }

    /// Ends the work on a level. The merged bundle, where there is one, is
    /// committed first, so that it is visible before the bundles that went
    /// into it leave the registry. The answer hands those bundles back:
    /// their files are to be deleted.
    pub fn finish(&mut self, registry: &mut FileBundlesLevelled) -> (r: Result<
        CompactionAction,
        DbError,
    >)
        requires
            old(self).wf(),
        ensures
            final(self).wf(),
            (final(self)@, final(registry)@, outcome_of(r)) == old(self)@.finish(old(registry)@),
            old(registry)@.wf() && (old(self)@.stage == Stage::Writing ==> old(registry)@.accepts(
                old(self)@.output.unwrap().bundle,
            )) ==> final(registry)@.wf(),
    {
        match self.stage {
            Stage::Writing => {
                let plan = match self.output.take() {
                    Some(plan) => plan,
                    None => {
                        return Err(DbError::Invariant);
                    },
                };
                let ids = self.source_ids();
                let level = plan.bundle().level();
                let should_compact = plan.commit(registry);
                let removed = registry.remove_bundles(&ids);
                match should_compact {
                    ShouldCompact::Yes => {
                        self.level = level;
                        self.stage = Stage::Ready;
                        self.sources = Vec::new();
                        assert(self@.sources =~= Seq::empty());
                    },
                    ShouldCompact::No => {
                        self.end();
                    },
                }
                Ok(CompactionAction::Delete(removed))
            },
            Stage::Removing => {
                let ids = self.source_ids();
                let removed = registry.remove_bundles(&ids);
                self.end();
                Ok(CompactionAction::Delete(removed))
            },
            _ => Err(DbError::Invariant),
        }
    }

    /// The identities of the bundles that are being merged.
    fn source_ids(&self) -> (ids: HashSet<u128>)
        ensures
            ids@ == spec_ids(self@.sources),
    {
        let mut ids: HashSet<u128> = HashSet::new();
        let mut i: usize = 0;
        while i < self.sources.len()
            invariant
                i <= self.sources@.len(),
                forall|id: u128|
                    ids@.contains(id) <==> exists|j: int|
                        0 <= j < i && (#[trigger] self.sources@[j])@.id == id,
            decreases self.sources@.len() - i,
        {
            let ghost before = ids@;
            ids.insert(self.sources[i].id().0);
            proof {
                assert forall|id: u128| ids@.contains(id) <==> exists|j: int|
                    0 <= j < i + 1 && (#[trigger] self.sources@[j])@.id == id by {
                    if before.contains(id) {
                        let j = choose|j: int|
                            0 <= j < i && (#[trigger] self.sources@[j])@.id == id;
                        assert(0 <= j < i + 1 && self.sources@[j]@.id == id);
                    }
                    if id == self.sources@[i as int]@.id {
                        assert(0 <= i < i + 1 && self.sources@[i as int]@.id == id);
                    }
                }
            }
            i += 1;
        }
        proof {
            let views = self@.sources;
            assert forall|id: u128| ids@.contains(id) <==> spec_ids(views).contains(id) by {
                if ids@.contains(id) {
                    let j = choose|j: int|
                        0 <= j < self.sources@.len() && (#[trigger] self.sources@[j])@.id == id;
                    assert(views[j].id == id);
                }
                if spec_ids(views).contains(id) {
                    let j = choose|j: int| 0 <= j < views.len() && (#[trigger] views[j]).id == id;
                    assert(self.sources@[j]@.id == id);
                }
            }
            assert(ids@ =~= spec_ids(views));
        }
        ids
    }
}

/// Files that decode together decode to as many tables.
proof fn lemma_decode_all_len(files: Seq<Seq<u8>>, n: int)
    requires
        0 <= n,
        spec_decode_all(files, n) is Some,
    ensures
        spec_decode_all(files, n).unwrap().len() == n,
    decreases n,
{
    if n > 0 {
        lemma_decode_all_len(files, n - 1);
    }
}

} // verus!
