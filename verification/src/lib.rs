//! A label-indexed time-series store.
//!
//! Samples carry a timestamp, a value and a set of key/value labels. Each
//! distinct label set is given a dense series identifier, samples are appended
//! to a per-series column, and an inverted index maps every `(key, value)`
//! label to the set of series that carry it.
//!
//! The parts, leaves first:
//!
//! - [`lex`] and [`assoc`]: the order of texts, and sorted lists of pairs;
//! - [`labels`]: label sets and their canonical form, the series name;
//! - [`registry`]: series names and their identifiers;
//! - [`column_store`]: the samples of each series;
//! - [`bitmap`] and [`inverted_index`]: posting sets, and the ordered index of
//!   labels with its range queries;
//! - [`query`]: the prefix search;
//! - [`persist`] and [`names_file`]: the records of a persisted index, and
//!   the text of the names file;
//! - [`db`]: the store that keeps the parts in step, with [`model`] for what
//!   it holds and [`laws`] for what holds of it.
//!
//! The library reads and writes no files: it is handed the records of an
//! index and hands them back.

pub mod assoc;
pub mod bitmap;
pub mod clock;
pub mod column_store;
pub mod db;
pub mod error;
pub mod inverted_index;
pub mod labels;
pub mod laws;
pub mod lex;
pub mod model;
pub mod names_file;
pub mod persist;
pub mod query;
pub mod registry;

pub use db::{cmd_build, cmd_search, progress_milestone, MetricSample, DB};
pub use error::{DbError, IndexFile};
pub use labels::{canonicalize, Labels};
pub use names_file::{decode_names, encode_names};
pub use persist::{file_path, suffix, PersistedIndex, TagIndex};
pub use query::QueryResult;
