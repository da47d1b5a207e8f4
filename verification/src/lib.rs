//! A key-value storage engine: a write-ahead log, a sorted memtable, immutable sorted tables with
//! sparse indexes and Bloom filters, and compaction.
//!
//! The engine touches no file and reads no clock. What an operation needs from outside it asks for,
//! and it goes on with the answer; the contracts say what it comes to on whatever the files hold.
//!
//! - [`model`], [`store`], [`recovery`]: the mathematical model, and the laws of the store as a whole
//!   and of what a crash leaves of it.
//! - [`format`], [`layout`], [`names`]: what stands on disk.
//! - [`wal`], [`memtable`], [`sstable`], [`bloom`]: the parts of the store.
//! - [`search`], [`reader`], [`merge`]: reading tables.
//! - [`engine`], [`query`], [`compaction`]: writes, flushes, reads and compactions; [`steps`]: how these
//!   are changes of the store.
//! - [`metrics`], [`json`], [`server`]: live counters, their text, and the endpoint that shows them.

pub mod bloom;
pub mod compaction;
pub mod decimal;
pub mod engine;
pub mod error;
pub mod format;
pub mod json;
pub mod layout;
pub mod memtable;
pub mod merge;
pub mod metrics;
pub mod model;
pub mod names;
pub mod order;
pub mod query;
pub mod reader;
pub mod recovery;
pub mod search;
pub mod server;
pub mod sorted;
pub mod sstable;
pub mod steps;
pub mod store;
pub mod wal;
