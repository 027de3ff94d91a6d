//! What holds of the search through the bundles when its caller fetches
//! faithfully: the steps together ask one bundle after another, and for
//! bundles that were written from tables they give what the tables held.
use crate::bloom_filter::DEFAULT_HASHES;
use crate::bloom_filter::spec_bloom_bytes;
use crate::bloom_filter::spec_may_contain;
use crate::db::SearchActionView;
use crate::db::SearchStage;
use crate::db::SearchView;
use crate::error::DbError;
use crate::file_handling::file_bundle::FilesView;
use crate::lookup_laws::lemma_bundle_lookup;
use crate::memtable::map_of;
use crate::memtable::Record;
use crate::memtable::Slot;
use crate::memtable::strictly_sorted;
use crate::serialization::records_fit;
use crate::serialization::spec_bloom_of;
use crate::serialization::spec_encode;
use crate::sst_reader::spec_block_lookup;
use crate::sst_reader::spec_bundle_lookup;
use crate::sst_reader::spec_index_entries;
use crate::sst_reader::spec_pick_block;
use crate::store_laws::spec_disk_get;
use vstd::prelude::*;

verus! {

/// The files of the store's directory: the bytes of each, by its name.
pub type Directory = Map<Seq<char>, Seq<u8>>;

/// No file is longer than a 64-bit offset can say.
pub open spec fn files_fit(dir: Directory) -> bool {
    forall|name: Seq<char>| dir.contains_key(name) ==> (#[trigger] dir[name]).len() <= u64::MAX
}

/// What carrying out an action of the search gives: the bytes that it asks
/// for. A file that is not there, and a read past the end of a file, fail.
pub open spec fn spec_fetch(dir: Directory, action: SearchActionView) -> Result<Seq<u8>, DbError> {
    match action {
        SearchActionView::ReadFile(path) => if dir.contains_key(path) {
            Ok(dir[path])
        } else {
            Err(DbError::Io)
        },
        SearchActionView::ReadAt { path, offset, len } => if dir.contains_key(path) && offset + len
            <= dir[path].len() {
            Ok(dir[path].subrange(offset as int, offset + len))
        } else {
            Err(DbError::Io)
        },
        SearchActionView::Answer(_) => Err(DbError::Invariant),
    }
}

/// Where the search ends when each action is carried out against `dir` and
/// its bytes are handed to the next step, for at most `steps` steps.
pub open spec fn spec_run(dir: Directory, search: SearchView, action: SearchActionView, steps: nat)
    -> Result<Option<Seq<char>>, DbError>
    decreases steps,
{
    match action {
        SearchActionView::Answer(answer) => Ok(answer),
        _ => if steps == 0 {
            Err(DbError::Invariant)
        } else {
            match spec_fetch(dir, action) {
                Err(e) => Err(e),
                Ok(bytes) => match search.step(bytes).1 {
                    Ok(next) => spec_run(dir, search.step(bytes).0, next, (steps - 1) as nat),
                    Err(e) => Err(e),
                },
            }
        },
    }
}

/// What one bundle holds for `key` according to the files of `dir`. A file
/// is missed only when it is needed: the index after the filter accepted
/// the key, the data file after the index named a block.
pub open spec fn spec_bundle_read(dir: Directory, bundle: FilesView, key: Seq<char>) -> Result<
    Option<Slot>,
    DbError,
> {
    if !dir.contains_key(bundle.bloom) {
        Err(DbError::Io)
    } else if dir[bundle.bloom].len() < 2 {
        Err(DbError::Decode)
    } else if !spec_may_contain(
        dir[bundle.bloom].drop_last(),
        dir[bundle.bloom].last() as nat,
        key,
    ) {
        Ok(None)
    } else if !dir.contains_key(bundle.index) {
        Err(DbError::Io)
    } else if spec_pick_block(spec_index_entries(dir[bundle.index]), key) is None {
        Ok(None)
    } else if !dir.contains_key(bundle.data) {
        Err(DbError::Io)
    } else {
        spec_block_lookup(dir[bundle.data], spec_index_entries(dir[bundle.index]), key)
    }
}

/// What the bundles from place `at` on give for `key`, asked one after
/// another: the first slot found decides, and the first failure ends the
/// search.
pub open spec fn spec_search(dir: Directory, bundles: Seq<FilesView>, key: Seq<char>, at: nat)
    -> Result<Option<Seq<char>>, DbError>
    decreases bundles.len() - at,
{
    if at >= bundles.len() {
        Ok(None)
    } else {
        match spec_bundle_read(dir, bundles[at as int], key) {
            Err(e) => Err(e),
            Ok(Some(slot)) => Ok(slot.value()),
            Ok(None) => spec_search(dir, bundles, key, at + 1),
        }
    }
}

/// One step of a run that has steps left.
proof fn lemma_run_step(dir: Directory, search: SearchView, action: SearchActionView, steps: nat)
    requires
        steps > 0,
        !(action is Answer),
    ensures
        spec_run(dir, search, action, steps) == match spec_fetch(dir, action) {
            Err(e) => Err(e),
            Ok(bytes) => match search.step(bytes).1 {
                Ok(next) => spec_run(dir, search.step(bytes).0, next, (steps - 1) as nat),
                Err(e) => Err(e),
            },
        },
{
}

/// A run that has the answer ends with it.
proof fn lemma_run_answer(dir: Directory, search: SearchView, answer: Option<Seq<char>>, steps: nat)
    ensures
        spec_run(dir, search, SearchActionView::Answer(answer), steps) == Ok::<
            Option<Seq<char>>,
            DbError,
        >(answer),
{
}

/// A search whose actions are carried out faithfully asks the bundles one
/// after another, from the one it turns to: it ends with what the first
/// bundle that holds the key holds for it, with nothing where none does,
/// and with the first failure.
pub proof fn lemma_run_is_search(dir: Directory, search: SearchView, at: nat, steps: nat)
    requires
        files_fit(dir),
        steps >= 4 * (search.bundles.len() - at),
    ensures
        spec_run(dir, search.turn_to(at).0, search.turn_to(at).1.unwrap(), steps) == spec_search(
            dir,
            search.bundles,
            search.key,
            at,
        ),
    decreases search.bundles.len() - at,
{
    let key = search.key;
    let start = search.turn_to(at).0;
    let action = search.turn_to(at).1.unwrap();
    if at >= search.bundles.len() {
        lemma_run_answer(dir, start, None, steps);
    } else {
        let bundle = search.bundles[at as int];
        assert(start.stage == SearchStage::Bloom && start.at == at && start.key == key
            && start.bundles == search.bundles);
        // What turning to the next bundle leads to.
        lemma_run_is_search(dir, search, at + 1, (steps - 1) as nat);
        lemma_run_is_search(dir, search, at + 1, (steps - 2) as nat);
        lemma_run_is_search(dir, search, at + 1, (steps - 4) as nat);
        assert(start.turn_to(at + 1) == search.turn_to(at + 1));
        lemma_run_step(dir, start, action, steps);
        if dir.contains_key(bundle.bloom) {
            let bloom = dir[bundle.bloom];
            if bloom.len() >= 2 && spec_may_contain(bloom.drop_last(), bloom.last() as nat, key) {
                let second = start.step(bloom).0;
                let read_index = start.step(bloom).1.unwrap();
                assert(second.turn_to(at + 1) == search.turn_to(at + 1));
                lemma_run_step(dir, second, read_index, (steps - 1) as nat);
                if dir.contains_key(bundle.index) {
                    let index = dir[bundle.index];
                    match spec_pick_block(spec_index_entries(index), key) {
                        None => {},
                        Some(offset) => {
                            lemma_block_steps(dir, second.step(index).0, offset, (steps - 2) as nat);
                            assert(second.step(index).0.turn_to(at + 1) == search.turn_to(at + 1));
                        },
                    }
                }
            }
        }
    }
}

/// The two reads of a block and what the run does with them: the frame,
/// then the block, which gives the answer or sends the search on to the
/// next bundle.
proof fn lemma_block_steps(dir: Directory, third: SearchView, offset: u64, steps: nat)
    requires
        files_fit(dir),
        steps >= 2,
        third.stage == SearchStage::Frame,
        third.offset == offset,
        third.at < third.bundles.len(),
    ensures
        spec_run(
            dir,
            third,
            SearchActionView::ReadAt {
                path: third.bundles[third.at as int].data,
                offset,
                len: 8,
            },
            steps,
        ) == if !dir.contains_key(third.bundles[third.at as int].data) {
            Err::<Option<Seq<char>>, DbError>(DbError::Io)
        } else {
            match crate::sst_reader::spec_read_block(
                dir[third.bundles[third.at as int].data],
                offset,
            ) {
                Err(e) => Err(e),
                Ok(packed) => match crate::serialization::gunzip_bytes(packed) {
                    None => Err(DbError::Decode),
                    Some(raw) => match crate::sst_reader::spec_scan(raw, third.key) {
                        Some(slot) => Ok(slot.value()),
                        None => spec_run(
                            dir,
                            third.turn_to(third.at + 1).0,
                            third.turn_to(third.at + 1).1.unwrap(),
                            (steps - 2) as nat,
                        ),
                    },
                },
            }
        },
{
    let path = third.bundles[third.at as int].data;
    let read_frame = SearchActionView::ReadAt { path, offset, len: 8 };
    lemma_run_step(dir, third, read_frame, steps);
    if dir.contains_key(path) {
        let data = dir[path];
        if offset + 8 <= data.len() {
            let frame = data.subrange(offset as int, offset + 8);
            let n = crate::encoding::spec_be_u64(frame);
            assert(n == crate::encoding::spec_be_u64(data.skip(offset as int))) by {
                let rest = data.skip(offset as int);
                assert(frame[0] == rest[0] && frame[1] == rest[1] && frame[2] == rest[2]
                    && frame[3] == rest[3] && frame[4] == rest[4] && frame[5] == rest[5]
                    && frame[6] == rest[6] && frame[7] == rest[7]);
            }
            let fourth = third.step(frame).0;
            let read_block = third.step(frame).1.unwrap();
            assert(read_block == SearchActionView::ReadAt {
                path,
                offset: (offset + 8) as u64,
                len: n,
            });
            lemma_run_step(dir, fourth, read_block, (steps - 1) as nat);
            if offset + 8 + n <= data.len() {
                let packed = data.subrange(offset + 8, offset + 8 + n);
                assert(fourth.turn_to(third.at + 1) == third.turn_to(third.at + 1));
                match crate::serialization::gunzip_bytes(packed) {
                    None => {},
                    Some(raw) => match crate::sst_reader::spec_scan(raw, third.key) {
                        Some(Slot::Put(text)) => {
                            lemma_run_answer(
                                dir,
                                fourth.step(packed).0,
                                Some(text),
                                (steps - 2) as nat,
                            );
                        },
                        Some(Slot::Tombstone) => {
                            lemma_run_answer(dir, fourth.step(packed).0, None, (steps - 2) as nat);
                        },
                        None => {},
                    },
                }
            }
        }
    }
}

/// The directory holds the three files of `bundle` as they are written for
/// the table with these records.
pub open spec fn spec_holds_table(dir: Directory, bundle: FilesView, records: Seq<Record>) -> bool {
    &&& strictly_sorted(records)
    &&& records_fit(records)
    &&& spec_encode(records) is Some
    &&& dir.contains_key(bundle.data)
    &&& dir.contains_key(bundle.index)
    &&& dir.contains_key(bundle.bloom)
    &&& dir[bundle.data] == spec_encode(records).unwrap().0
    &&& dir[bundle.index] == spec_encode(records).unwrap().1
    &&& dir[bundle.bloom] == spec_bloom_bytes(
        spec_bloom_of(records, records.len() as int),
        DEFAULT_HASHES,
    )
}

/// The maps of a sequence of tables.
pub open spec fn maps_of(tables: Seq<Seq<Record>>) -> Seq<Map<Seq<char>, Slot>> {
    Seq::new(tables.len(), |i: int| map_of(tables[i]))
}

/// Where every bundle holds the files that were written for its table,
/// asking the bundles gives what the tables hold: the value of the newest
/// table that holds the key, and nothing where that table holds a
/// tombstone or no table holds the key.
pub proof fn lemma_search_is_disk_get(
    dir: Directory,
    bundles: Seq<FilesView>,
    tables: Seq<Seq<Record>>,
    key: Seq<char>,
    at: nat,
)
    requires
        files_fit(dir),
        tables.len() == bundles.len(),
        at <= bundles.len(),
        forall|i: int|
            0 <= i < bundles.len() ==> spec_holds_table(dir, #[trigger] bundles[i], tables[i]),
    ensures
        spec_search(dir, bundles, key, at) == Ok::<Option<Seq<char>>, DbError>(
            spec_disk_get(maps_of(tables).skip(at as int), key),
        ),
    decreases bundles.len() - at,
{
    let maps = maps_of(tables).skip(at as int);
    if at < bundles.len() {
        let bundle = bundles[at as int];
        let records = tables[at as int];
        assert(spec_holds_table(dir, bundle, records));
        lemma_bundle_lookup(records, key);
        assert(maps[0] == map_of(records));
        assert(maps.drop_first() =~= maps_of(tables).skip(at as int + 1));
        lemma_search_is_disk_get(dir, bundles, tables, key, at + 1);
        assert(spec_bundle_read(dir, bundle, key) == spec_bundle_lookup(
            dir[bundle.bloom],
            dir[bundle.index],
            dir[bundle.data],
            key,
        ));
    } else {
        assert(maps =~= Seq::<Map<Seq<char>, Slot>>::empty());
    }
}

} // verus!
