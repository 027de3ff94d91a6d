//! The bundles on disk: their registry by level, how a table becomes a
//! bundle, and how the bundles of a level are merged into the next.
pub mod compaction;
pub mod file_bundle;
pub mod flushing;
