//! An embedded, ordered key-value store on the log-structured merge-tree
//! pattern: two in-memory tables, immutable sorted-string-table bundles of
//! three files each, a read path over memory and disk in recency order, and
//! leveled compaction.
//!
//! The library decides and computes; it performs no I/O. Whoever embeds it
//! reads and writes the files that the library names and hands their bytes
//! over.
pub mod bloom_filter;
pub mod codec_laws;
pub mod compaction_laws;
pub mod db;
pub mod deserialization;
pub mod encoding;
pub mod error;
pub mod file_handling;
pub mod history_laws;
pub mod lookup_laws;
pub mod memtable;
pub mod search_laws;
pub mod serialization;
pub mod sst_reader;
pub mod store_laws;
