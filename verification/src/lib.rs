//! An embedded key-value store over a single append-only command log.
//!
//! The log is a text of records, one command on a line: a write gives a key
//! a value, a delete takes it away. What a key reads as is what the commands
//! of the log leave for it, taken in order. The store keeps the bytes of the
//! log, an index from each key that has a value to the record that holds it,
//! and a count of its mutations. With every fiftieth mutation the log is
//! compacted: only the records that hold a value stay then, in ascending
//! order of their keys.
//!
//! Everything here works on values in memory. Reading the log from its file
//! and writing it back is the caller's part: a store is opened on the bytes
//! of the file, and says after each mutation which bytes the file lacks.
//!
//! - [`text`]: the lines of a log, and where each record lies;
//! - [`json`]: the calls into `serde_json` and `gjson`, which are trusted;
//! - [`shape`]: whether a line is one whole object;
//! - [`command`]: commands and their records;
//! - [`log`]: the command log, with append, read, replay and rewrite;
//! - [`replay`]: what a log means, and what compaction makes of it;
//! - [`order`]: the order of keys;
//! - [`index`]: the index;
//! - [`compactor`]: compaction of a log and its index;
//! - [`store`]: the store;
//! - [`laws`]: what holds of every store.

pub mod command;
pub mod compactor;
pub mod error;
pub mod index;
pub mod json;
pub mod laws;
pub mod log;
pub mod order;
pub mod replay;
pub mod shape;
pub mod store;
pub mod text;

pub use command::Command;
pub use error::CustomError;
pub use index::Index;
pub use log::{CommandLog, Locator};
pub use store::{KvStore, COMPACT_FREQUENCY, FILE_NAME};
