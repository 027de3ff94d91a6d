//! The engine: the table that takes the writes, the table that is on its
//! way to disk, and the search through the bundles for a key that memory
//! does not know. The engine decides; its caller stores and fetches the
//! bytes.
use crate::bloom_filter::DefaultBloomFilter;
use crate::bloom_filter::lemma_bloom_bytes_injective;
use crate::bloom_filter::spec_bloom_bytes;
use crate::bloom_filter::spec_may_contain;
use crate::encoding::spec_be_u64;
use crate::error::DbError;
use crate::file_handling::file_bundle::files_of;
use crate::file_handling::file_bundle::FilesView;
use crate::file_handling::file_bundle::SstFileBundle;
use crate::memtable::MemTable;
use crate::memtable::MemTableBase;
use crate::memtable::MemTableReadOnly;
use crate::memtable::MemValue;
use crate::memtable::Slot;
use crate::serialization::gunzip_bytes;
use crate::sst_reader::block_length;
use crate::sst_reader::find_block_offset;
use crate::sst_reader::find_in_block;
use crate::sst_reader::spec_index_entries;
use crate::sst_reader::spec_pick_block;
use crate::sst_reader::spec_scan;
use vstd::prelude::*;

verus! {

/// What memory knows of a key.
#[derive(Debug, PartialEq, Eq)]
pub enum Answer {
    /// The key has this value.
    Found(String),
    /// The key was deleted.
    Deleted,
    /// Memory holds nothing for the key: the bundles decide.
    Unknown,
}

/// An answer as a mathematical value.
pub enum AnswerView {
    Found(Seq<char>),
    Deleted,
    Unknown,
}

impl View for Answer {
    type V = AnswerView;

    open spec fn view(&self) -> AnswerView {
        match self {
            Answer::Found(text) => AnswerView::Found(text@),
            Answer::Deleted => AnswerView::Deleted,
            Answer::Unknown => AnswerView::Unknown,
        }
    }
}

/// What a slot tells a reader.
pub open spec fn spec_slot_answer(slot: Slot) -> AnswerView {
    match slot {
        Slot::Put(text) => AnswerView::Found(text),
        Slot::Tombstone => AnswerView::Deleted,
    }
}

/// What the two tables in memory tell a reader: the writable table is
/// asked first, then the frozen one, and the first slot found decides.
pub open spec fn spec_memory_answer(
    active: Map<Seq<char>, Slot>,
    frozen: Map<Seq<char>, Slot>,
    key: Seq<char>,
) -> AnswerView {
    if active.contains_key(key) {
        spec_slot_answer(active[key])
    } else if frozen.contains_key(key) {
        spec_slot_answer(frozen[key])
    } else {
        AnswerView::Unknown
    }
}

/// Whether a table with these contents has reached the size `limit`.
pub open spec fn spec_is_full(table: Map<Seq<char>, Slot>, limit: nat) -> bool {
    table.len() >= limit
}

/// The point operations of the store, as its part in memory answers them.
/// `get` may leave the answer to the bundles; `put` and `delete` hand out
/// the table that has become full and is to be written to disk.
pub trait DB {
    /// The state is one that the operations keep.
    spec fn wf(&self) -> bool;

    /// The table that takes the writes.
    spec fn active(&self) -> Map<Seq<char>, Slot>;

    /// The previous writable table.
    spec fn frozen(&self) -> Map<Seq<char>, Slot>;

    /// The size at which the writable table is frozen.
    spec fn limit(&self) -> nat;

    /// What memory knows of `key`.
    fn get(&self, key: &str) -> (answer: Answer)
        requires
            self.wf(),
        ensures
            answer@ == spec_memory_answer(self.active(), self.frozen(), key@),
    ;

    /// Puts `value` under `key`. Where that fills the writable table, the
    /// table becomes the frozen one, an empty table takes its place, and the
    /// full table is handed out to be written to disk.
    fn put(&mut self, key: String, value: String) -> (full: Option<MemTable>)
        requires
            old(self).wf(),
        ensures
            final(self).wf(),
            final(self).limit() == old(self).limit(),
            spec_written(
                old(self).active(),
                old(self).frozen(),
                old(self).limit(),
                key@,
                Slot::Put(value@),
                final(self).active(),
                final(self).frozen(),
                full,
            ),
    ;

    /// Marks `key` as deleted, with the same handing out of a full table.
    fn delete(&mut self, key: &str) -> (full: Option<MemTable>)
        requires
            old(self).wf(),
        ensures
            final(self).wf(),
            final(self).limit() == old(self).limit(),
            spec_written(
                old(self).active(),
                old(self).frozen(),
                old(self).limit(),
                key@,
                Slot::Tombstone,
                final(self).active(),
                final(self).frozen(),
                full,
            ),
    ;
}

/// How a write changes memory. The slot goes into the writable table. If
/// the table is then full, it becomes the frozen table and is handed out,
/// and the writable table is empty; otherwise nothing else changes.
pub open spec fn spec_written(
    active: Map<Seq<char>, Slot>,
    frozen: Map<Seq<char>, Slot>,
    limit: nat,
    key: Seq<char>,
    slot: Slot,
    active_after: Map<Seq<char>, Slot>,
    frozen_after: Map<Seq<char>, Slot>,
    full: Option<MemTable>,
) -> bool {
    let written = active.insert(key, slot);
    if spec_is_full(written, limit) {
        &&& active_after == Map::<Seq<char>, Slot>::empty()
        &&& frozen_after == written
        &&& full matches Some(table)
        &&& table.wf()
        &&& table@ == written
    } else {
        &&& active_after == written
        &&& frozen_after == frozen
        &&& full is None
    }
}

/// The part of the store that lives in memory.
#[derive(Debug)]
pub struct BaumDb {
    // The main memtable for reading from and writing to.
    main_table: MemTable,
    // The previous main table. It serves the reads while it is written to
    // disk, and until the next table takes its place.
    secondary_table: MemTableReadOnly,
    max_memtable_size: usize,
}

impl BaumDb {
    /// An empty store whose writable table is frozen at
    /// `max_memtable_size` entries.
    pub fn new(max_memtable_size: usize) -> (r: Self)
        ensures
            r.wf(),
            r.active() == Map::<Seq<char>, Slot>::empty(),
            r.frozen() == Map::<Seq<char>, Slot>::empty(),
            r.limit() == max_memtable_size,
    {
        BaumDb {
            main_table: MemTable::new(),
            secondary_table: MemTableReadOnly(MemTableBase::new()),
            max_memtable_size,
        }
    }

    /// Hands out the writable table if it is full, and freezes it.
    fn maybe_flush_memtable(&mut self) -> (full: Option<MemTable>)
        requires
            old(self).wf(),
        ensures
            final(self).wf(),
            final(self).limit() == old(self).limit(),
            if spec_is_full(old(self).active(), old(self).limit()) {
                &&& final(self).active() == Map::<Seq<char>, Slot>::empty()
                &&& final(self).frozen() == old(self).active()
                &&& full matches Some(table)
                &&& table.wf()
                &&& table@ == old(self).active()
            } else {
                &&& final(self).active() == old(self).active()
                &&& final(self).frozen() == old(self).frozen()
                &&& full is None
            },
    {
        proof {
            self.main_table.0.lemma_view();
        }
        if self.main_table.len() >= self.max_memtable_size {
            Some(self.flush_memtable())
        } else {
            None
        }
    }

    /// Freezes the writable table and hands it out: an empty table takes
    /// its place, and the frozen table holds what the full one held.
    fn flush_memtable(&mut self) -> (full: MemTable)
        requires
            old(self).wf(),
        ensures
            final(self).wf(),
            final(self).limit() == old(self).limit(),
            final(self).active() == Map::<Seq<char>, Slot>::empty(),
            final(self).frozen() == old(self).active(),
            full.wf(),
            full@ == old(self).active(),
    {
        let mut previous_memtable = MemTable::new();
        std::mem::swap(&mut previous_memtable, &mut self.main_table);
        self.secondary_table = MemTableReadOnly(previous_memtable.clone().into_inner());
        previous_memtable
    }
}

impl DB for BaumDb {
    closed spec fn wf(&self) -> bool {
        self.main_table.wf() && self.secondary_table.wf()
    }

    closed spec fn active(&self) -> Map<Seq<char>, Slot> {
        self.main_table@
    }

    closed spec fn frozen(&self) -> Map<Seq<char>, Slot> {
        self.secondary_table@
    }

    closed spec fn limit(&self) -> nat {
        self.max_memtable_size as nat
    }

    fn get(&self, key: &str) -> (answer: Answer) {
        match self.main_table.slot(key) {
            Some(MemValue::Put(text)) => Answer::Found(text.clone()),
            Some(MemValue::Delete) => Answer::Deleted,
            None => match self.secondary_table.slot(key) {
                Some(MemValue::Put(text)) => Answer::Found(text.clone()),
                Some(MemValue::Delete) => Answer::Deleted,
                None => Answer::Unknown,
            },
        }
    }

    fn put(&mut self, key: String, value: String) -> (full: Option<MemTable>) {
        self.main_table.put(key, value);
        self.maybe_flush_memtable()
    }

    fn delete(&mut self, key: &str) -> (full: Option<MemTable>) {
        self.main_table.delete(key);
        self.maybe_flush_memtable()
    }
}

/// Where the search through the bundles stands: which file of the bundle
/// at hand it waits for.
#[derive(Debug, Copy, Clone, PartialEq, Eq, Structural)]
pub enum SearchStage {
    /// The Bloom filter file.
    Bloom,
    /// The index file.
    Index,
    /// The eight bytes in front of the block.
    Frame,
    /// The block.
    Block,
    /// The search is over.
    Finished,
}

/// What the caller is to do for the search.
#[derive(Debug, PartialEq, Eq)]
pub enum SearchAction {
    /// Read this file whole and hand its bytes to `step`.
    ReadFile(String),
    /// Read `len` bytes at `offset` of this file and hand them to `step`.
    ReadAt { path: String, offset: u64, len: u64 },
    /// The search is over: this is what the bundles hold for the key.
    Answer(Option<String>),
}

/// A search action as mathematical values.
pub enum SearchActionView {
    ReadFile(Seq<char>),
    ReadAt { path: Seq<char>, offset: u64, len: u64 },
    Answer(Option<Seq<char>>),
}

impl View for SearchAction {
    type V = SearchActionView;

    open spec fn view(&self) -> SearchActionView {
        match self {
            SearchAction::ReadFile(path) => SearchActionView::ReadFile(path@),
            SearchAction::ReadAt { path, offset, len } => SearchActionView::ReadAt {
                path: path@,
                offset: *offset,
                len: *len,
            },
            SearchAction::Answer(Some(text)) => SearchActionView::Answer(Some(text@)),
            SearchAction::Answer(None) => SearchActionView::Answer(None),
        }
    }
}

/// What a step of the search answered, as mathematical values.
pub open spec fn search_outcome(r: Result<SearchAction, DbError>) -> Result<
    SearchActionView,
    DbError,
> {
    match r {
        Ok(action) => Ok(action@),
        Err(e) => Err(e),
    }
}

/// A search as mathematical values.
pub struct SearchView {
    pub key: Seq<char>,
    pub bundles: Seq<FilesView>,
    pub at: nat,
    pub stage: SearchStage,
    pub offset: u64,
}

impl SearchView {
    /// The search, over.
    pub open spec fn finished(self) -> SearchView {
        SearchView { stage: SearchStage::Finished, ..self }
    }

    /// Turning to the bundle at place `at`: its filter is read first. Past
    /// the last bundle the key is not found.
    pub open spec fn turn_to(self, at: nat) -> (SearchView, Result<SearchActionView, DbError>) {
        if at >= self.bundles.len() {
            (SearchView { at, offset: 0, ..self.finished() }, Ok(SearchActionView::Answer(None)))
        } else {
            (
                SearchView { at, offset: 0, stage: SearchStage::Bloom, ..self },
                Ok(SearchActionView::ReadFile(self.bundles[at as int].bloom)),
            )
        }
    }

    /// One step of the search, on the bytes that the last action asked for.
    ///
    /// A filter that rules the key out, an index without entries and a
    /// block without the key make the search turn to the next bundle. A
    /// filter that accepts the key leads to the index, the index to the
    /// frame of the block it points to, the frame to the block, and a block
    /// that holds the key to the answer: its value, or nothing for a
    /// tombstone. A filter of fewer than two bytes, a frame of fewer than
    /// eight, a block that lies past the end of what a file can hold and a
    /// block that does not unpack end the search with an error.
    pub open spec fn step(self, bytes: Seq<u8>) -> (SearchView, Result<SearchActionView, DbError>) {
        match self.stage {
            SearchStage::Bloom => if bytes.len() < 2 {
                (self.finished(), Err(DbError::Decode))
            } else if !spec_may_contain(bytes.drop_last(), bytes.last() as nat, self.key) {
                self.turn_to(self.at + 1)
            } else {
                (
                    SearchView { stage: SearchStage::Index, ..self },
                    Ok(SearchActionView::ReadFile(self.bundles[self.at as int].index)),
                )
            },
            SearchStage::Index => match spec_pick_block(spec_index_entries(bytes), self.key) {
                None => self.turn_to(self.at + 1),
                Some(offset) => (
                    SearchView { stage: SearchStage::Frame, offset, ..self },
                    Ok(
                        SearchActionView::ReadAt {
                            path: self.bundles[self.at as int].data,
                            offset,
                            len: 8,
                        },
                    ),
                ),
            },
            SearchStage::Frame => if bytes.len() < 8 || self.offset + 8 > u64::MAX {
                (self.finished(), Err(DbError::Decode))
            } else {
                (
                    SearchView { stage: SearchStage::Block, ..self },
                    Ok(
                        SearchActionView::ReadAt {
                            path: self.bundles[self.at as int].data,
                            offset: (self.offset + 8) as u64,
                            len: spec_be_u64(bytes),
                        },
                    ),
                )
            },
            SearchStage::Block => match gunzip_bytes(bytes) {
                None => (self.finished(), Err(DbError::Decode)),
                Some(raw) => match spec_scan(raw, self.key) {
                    Some(Slot::Put(text)) => (
                        self.finished(),
                        Ok(SearchActionView::Answer(Some(text))),
                    ),
                    Some(Slot::Tombstone) => (self.finished(), Ok(SearchActionView::Answer(None))),
                    None => self.turn_to(self.at + 1),
                },
            },
            SearchStage::Finished => (self, Err(DbError::Invariant)),
        }
    }
}

/// The search for one key through the visible bundles, newest first. In
/// each bundle the filter is asked first, then the index, then one block.
#[derive(Debug)]
pub struct BundleSearch {
    key: String,
    bundles: Vec<SstFileBundle>,
    at: usize,
    stage: SearchStage,
    offset: u64,
}

impl View for BundleSearch {
    type V = SearchView;

    closed spec fn view(&self) -> SearchView {
        SearchView {
            key: self.key@,
            bundles: files_of(self.bundles@),
            at: self.at as nat,
            stage: self.stage,
            offset: self.offset,
        }
    }
}

impl BundleSearch {
    /// While the search goes on, there is a bundle at hand.
    pub open spec fn wf(&self) -> bool {
        self@.stage != SearchStage::Finished ==> self@.at < self@.bundles.len()
    }

    /// A search for `key` through `bundles`, in their order, and its first
    /// action.
    pub fn new(key: String, bundles: Vec<SstFileBundle>) -> (r: (Self, SearchAction))
        ensures
            r.0.wf(),
            (r.0@, Ok::<SearchActionView, DbError>(r.1@)) == (SearchView {
                key: key@,
                bundles: files_of(bundles@),
                at: 0,
                stage: SearchStage::Finished,
                offset: 0,
            }).turn_to(0),
    {
        let mut search = BundleSearch { key, bundles, at: 0, stage: SearchStage::Finished, offset: 0 };
        let action = search.turn_to(0);
        (search, action)
    }

    /// Turns to the bundle at place `at`.
    fn turn_to(&mut self, at: usize) -> (action: SearchAction)
        ensures
            final(self).wf(),
            (final(self)@, Ok::<SearchActionView, DbError>(action@)) == old(self)@.turn_to(at as nat),
    {
        self.at = at;
        self.offset = 0;
        if at >= self.bundles.len() {
            self.stage = SearchStage::Finished;
            SearchAction::Answer(None)
        } else {
            self.stage = SearchStage::Bloom;
            SearchAction::ReadFile(self.bundles[at].bloom_filter_file_path.clone())
        }
    }

    /// Ends the search.
    fn end(&mut self)
        ensures
            final(self).wf(),
            final(self)@ == old(self)@.finished(),
    {
        self.stage = SearchStage::Finished;
    }

    /// Takes the bytes that the last action asked for and says what is to
    /// be done next.
    pub fn step(&mut self, bytes: Vec<u8>) -> (r: Result<SearchAction, DbError>)
        requires
            old(self).wf(),
        ensures
            final(self).wf(),
            (final(self)@, search_outcome(r)) == old(self)@.step(bytes@),
    {
        let count: usize = self.bundles.len();
        assert(self.stage != SearchStage::Finished ==> self.at < count);
        match self.stage {
            SearchStage::Bloom => {
                let filter = match DefaultBloomFilter::try_from(bytes) {
                    Ok(filter) => filter,
                    Err(e) => {
                        self.end();
                        return Err(e);
                    },
                };
                proof {
                    assert(bytes@ =~= spec_bloom_bytes(bytes@.drop_last(), bytes@.last()));
                    lemma_bloom_bytes_injective(
                        filter.bits(),
                        filter.n_hashes(),
                        bytes@.drop_last(),
                        bytes@.last(),
                    );
                }
                if !filter.may_contain_key(self.key.as_str()) {
                    let next: usize = self.at + 1;
                    return Ok(self.turn_to(next));
                }
                self.stage = SearchStage::Index;
                Ok(SearchAction::ReadFile(self.bundles[self.at].index_file_path.clone()))
            },
            SearchStage::Index => {
                match find_block_offset(bytes, self.key.as_str()) {
                    None => {
                        let next: usize = self.at + 1;
                        Ok(self.turn_to(next))
                    },
                    Some(offset) => {
                        self.stage = SearchStage::Frame;
                        self.offset = offset;
                        Ok(
                            SearchAction::ReadAt {
                                path: self.bundles[self.at].main_data_file_path.clone(),
                                offset,
                                len: 8,
                            },
                        )
                    },
                }
            },
            SearchStage::Frame => {
                let len = match block_length(bytes.as_slice()) {
                    Ok(len) => len,
                    Err(e) => {
                        self.end();
                        return Err(e);
                    },
                };
                if self.offset > u64::MAX - 8 {
                    self.end();
                    return Err(DbError::Decode);
                }
                self.stage = SearchStage::Block;
                Ok(
                    SearchAction::ReadAt {
                        path: self.bundles[self.at].main_data_file_path.clone(),
                        offset: self.offset + 8,
                        len,
                    },
                )
            },
            SearchStage::Block => {
                match find_in_block(bytes.as_slice(), self.key.as_str()) {
                    Err(e) => {
                        self.end();
                        Err(e)
                    },
                    Ok(Some(MemValue::Put(text))) => {
                        self.end();
                        Ok(SearchAction::Answer(Some(text)))
                    },
                    Ok(Some(MemValue::Delete)) => {
                        self.end();
                        Ok(SearchAction::Answer(None))
                    },
                    Ok(None) => {
                        let next: usize = self.at + 1;
                        Ok(self.turn_to(next))
                    },
                }
            },
            SearchStage::Finished => Err(DbError::Invariant),
        }
    }
}

} // verus!
