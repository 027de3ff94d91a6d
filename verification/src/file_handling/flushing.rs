//! How a table becomes a bundle: the table is written out, the registry
//! names the three files, their bytes are handed over to be stored, and only
//! then is the bundle committed.
use crate::bloom_filter::DEFAULT_HASHES;
use crate::bloom_filter::spec_bloom_bytes;
use crate::error::DbError;
use crate::file_handling::file_bundle::BundleView;
use crate::file_handling::file_bundle::FileBundleId;
use crate::file_handling::file_bundle::FileBundlesLevelled;
use crate::file_handling::file_bundle::Level;
use crate::file_handling::file_bundle::RegistryView;
use crate::file_handling::file_bundle::ShouldCompact;
use crate::file_handling::file_bundle::UncommittedFileBundle;
use crate::memtable::MemTable;
use crate::memtable::Record;
use crate::serialization::spec_bloom_of;
use crate::serialization::spec_encode;
use crate::serialization::SerializedTableData;
use vstd::prelude::*;

verus! {

/// A bundle that waits for its files: the bytes of the three files and the
/// uncommitted bundle that names them.
#[derive(Debug)]
pub struct FlushPlan {
    bundle: UncommittedFileBundle,
    main_data: Vec<u8>,
    offsets: Vec<u8>,
    bloom: Vec<u8>,
}

/// A waiting bundle as mathematical values.
pub struct PlanView {
    pub bundle: BundleView,
    pub data: Seq<u8>,
    pub index: Seq<u8>,
    pub bloom: Seq<u8>,
}

impl View for FlushPlan {
    type V = PlanView;

    closed spec fn view(&self) -> PlanView {
        PlanView {
            bundle: self.bundle@,
            data: self.main_data@,
            index: self.offsets@,
            bloom: self.bloom@,
        }
    }
}

/// The bundle that writing `records` out for `level` gives, with identity
/// `id`. A block that cannot be compressed is an `Io` failure; a level
/// whose numbers are used up is an `Invariant` failure.
pub open spec fn spec_flush(records: Seq<Record>, registry: RegistryView, level: Level, id: u128)
    -> Result<PlanView, DbError> {
    match spec_encode(records) {
        Some((data, index)) => if registry.counter(level) >= usize::MAX {
            Err(DbError::Invariant)
        } else {
            Ok(
                PlanView {
                    bundle: registry.next_bundle(level, id),
                    data,
                    index,
                    bloom: spec_bloom_bytes(
                        spec_bloom_of(records, records.len() as int),
                        DEFAULT_HASHES,
                    ),
                },
            )
        },
        None => Err(DbError::Io),
    }
}

/// The registry after `records` were written out for `level`: where that
/// gave a bundle, the counter of the level has grown by one.
pub open spec fn spec_flush_registry(records: Seq<Record>, registry: RegistryView, level: Level)
    -> RegistryView {
    if spec_flush(records, registry, level, 0) is Ok {
        registry.named(level)
    } else {
        registry
    }
}

/// What a flush answered, as mathematical values.
pub open spec fn plan_of(r: Result<FlushPlan, DbError>) -> Result<PlanView, DbError> {
    match r {
        Ok(plan) => Ok(plan@),
        Err(e) => Err(e),
    }
}

/// The identity of the bundle that a flush gave.
pub open spec fn plan_id(r: Result<FlushPlan, DbError>) -> u128 {
    match r {
        Ok(plan) => plan@.bundle.id,
        Err(_) => 0,
    }
}

/// Names the bundle of a table that was written out: the registry gives it
/// the next number of `level` and a fresh random identity. The three files
/// are to be created with the bytes of the plan before it is committed.
pub fn plan_bundle(table_data: SerializedTableData, handler: &mut FileBundlesLevelled, level: Level)
    -> (r: Result<FlushPlan, DbError>)
    requires
        table_data.bloom_filter.wf(),
    ensures
        match r {
            Ok(plan) => old(handler)@.counter(level) < usize::MAX && plan@ == (PlanView {
                bundle: old(handler)@.next_bundle(level, plan@.bundle.id),
                data: table_data.main_data@,
                index: table_data.offsets@,
                bloom: spec_bloom_bytes(
                    table_data.bloom_filter.bits(),
                    table_data.bloom_filter.n_hashes(),
                ),
            }) && final(handler)@ == old(handler)@.named(level),
            Err(e) => e == DbError::Invariant && old(handler)@.counter(level) >= usize::MAX
                && final(handler)@ == old(handler)@,
        },
        old(handler)@.wf() ==> final(handler)@.wf(),
        old(handler)@.wf() ==> (r matches Ok(plan) ==> old(handler)@.fresh(plan@.bundle) && final(handler)@.accepts(plan@.bundle)),
{
    if handler.next_number(level) == usize::MAX {
        return Err(DbError::Invariant);
    }
    let bundle = handler.new_file_bundle(level);
    Ok(
        FlushPlan {
            bundle,
            main_data: table_data.main_data,
            offsets: table_data.offsets,
            bloom: table_data.bloom_filter.into_bytes(),
        },
    )
}

/// Names the bundle of a table that was written out, with the identity
/// `id`: the registry gives it the next number of `level`.
pub fn plan_bundle_with_id(
    table_data: SerializedTableData,
    handler: &mut FileBundlesLevelled,
    level: Level,
    id: FileBundleId,
) -> (r: Result<FlushPlan, DbError>)
    requires
        table_data.bloom_filter.wf(),
    ensures
        match r {
            Ok(plan) => old(handler)@.counter(level) < usize::MAX && plan@ == (PlanView {
                bundle: old(handler)@.next_bundle(level, id.0),
                data: table_data.main_data@,
                index: table_data.offsets@,
                bloom: spec_bloom_bytes(
                    table_data.bloom_filter.bits(),
                    table_data.bloom_filter.n_hashes(),
                ),
            }) && final(handler)@ == old(handler)@.named(level),
            Err(e) => e == DbError::Invariant && old(handler)@.counter(level) >= usize::MAX
                && final(handler)@ == old(handler)@,
        },
        old(handler)@.wf() ==> final(handler)@.wf(),
        old(handler)@.wf() ==> (r matches Ok(plan) ==> old(handler)@.fresh(plan@.bundle) && final(handler)@.accepts(plan@.bundle)),
{
    if handler.next_number(level) == usize::MAX {
        return Err(DbError::Invariant);
    }
    let bundle = handler.new_file_bundle_with_id(level, id);
    Ok(
        FlushPlan {
            bundle,
            main_data: table_data.main_data,
            offsets: table_data.offsets,
            bloom: table_data.bloom_filter.into_bytes(),
        },
    )
}

/// Writes `data` out as a bundle for `level` with the identity `id`. The
/// bundle is not visible yet: its three files are to be created with the
/// bytes of the plan before it is committed.
pub fn flush_with_id(
    data: MemTable,
    handler: &mut FileBundlesLevelled,
    level: Level,
    id: FileBundleId,
) -> (r: Result<FlushPlan, DbError>)
    ensures
        plan_of(r) == spec_flush(data.records(), old(handler)@, level, id.0),
        final(handler)@ == spec_flush_registry(data.records(), old(handler)@, level),
        old(handler)@.wf() ==> final(handler)@.wf(),
        old(handler)@.wf() ==> (r matches Ok(plan) ==> old(handler)@.fresh(plan@.bundle) && final(handler)@.accepts(plan@.bundle)),
{
    match data.serialize() {
        Ok(table_data) => plan_bundle_with_id(table_data, handler, level, id),
        Err(e) => Err(e),
    }
}

/// Writes `data` out as a bundle for `level` that is not visible yet, with
/// a fresh random identity. The three files are to be created with the
/// bytes of the plan before it is committed.
pub fn flush(data: MemTable, handler: &mut FileBundlesLevelled, level: Level) -> (r: Result<
    FlushPlan,
    DbError,
>)
    ensures
        plan_of(r) == spec_flush(data.records(), old(handler)@, level, plan_id(r)),
        final(handler)@ == spec_flush_registry(data.records(), old(handler)@, level),
        old(handler)@.wf() ==> final(handler)@.wf(),
        old(handler)@.wf() ==> (r matches Ok(plan) ==> old(handler)@.fresh(plan@.bundle) && final(handler)@.accepts(plan@.bundle)),
{
    match data.serialize() {
        Ok(table_data) => plan_bundle(table_data, handler, level),
        Err(e) => Err(e),
    }
}

impl FlushPlan {
    /// The uncommitted bundle, which names the three files.
    pub fn bundle(&self) -> (bundle: &UncommittedFileBundle)
        ensures
            bundle@ == self@.bundle,
    {
        &self.bundle
    }

    /// The bytes of the data file.
    pub fn main_data(&self) -> (bytes: &Vec<u8>)
        ensures
            bytes@ == self@.data,
    {
        &self.main_data
    }

    /// The bytes of the index file.
    pub fn offsets(&self) -> (bytes: &Vec<u8>)
        ensures
            bytes@ == self@.index,
    {
        &self.offsets
    }

    /// The bytes of the Bloom filter file.
    pub fn bloom(&self) -> (bytes: &Vec<u8>)
        ensures
            bytes@ == self@.bloom,
    {
        &self.bloom
    }

    /// Makes the bundle visible, once its files are written: it goes in
    /// front of its level. The answer says whether the level has reached its
    /// threshold.
    pub fn commit(self, handler: &mut FileBundlesLevelled) -> (r: ShouldCompact)
        ensures
            final(handler)@ == old(handler)@.commit(self@.bundle),
            r == RegistryView::crossed(
                self@.bundle.level,
                final(handler)@.level(self@.bundle.level).len(),
            ),
            old(handler)@.wf() && old(handler)@.accepts(self@.bundle) ==> final(handler)@.wf(),
    {
        handler.commit_file_bundle(self.bundle)
    }
}

} // verus!
