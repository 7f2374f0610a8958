//! The core of an embedded vector database.
//!
//! Points are identifiers with vectors and JSON payloads. They are kept in collections,
//! looked up, listed by pages, and searched for those nearest to a vector.
//!
//! - [`engine`]: databases and collections: what writing, reading, searching, flushing,
//!   compacting and opening do
//! - [`segment`]: where a collection keeps its points
//! - [`index`]: exact search and graph search among the rows of a segment
//! - [`wal`]: the log that every write goes to first
//! - [`manifest`]: what a database consists of
//! - [`storage`]: files and directories, and where the files of a database are
//! - [`filter`]: conditions on points
//! - [`kernel`], [`float`]: metrics, and the orders of floating-point numbers
//! - [`json`], [`id`], [`collection`], [`query`]: payloads, identifiers, configurations, queries
//! - [`api`]: how requests from outside are read
//! - [`bitmap`], [`bytes`], [`lines`], [`text`], [`batch`]: sets of row numbers, integers in byte
//!   strings, lines, texts, batches
//!
//! Components of vectors, norms and scores are carried as the bit patterns of
//! IEEE 754 numbers. The arithmetic on them is a parameter, [`kernel::Kernel`];
//! everything that compares, orders, stores or selects them is here.
//!
//! Files are reached through [`storage::Fs`]; files in memory are here, others are not. A
//! write is logged first, and applied then. What has to be stored is given as
//! [`engine::database::Step`]s, one after the other, by a [`engine::job::Job`].
//! [`engine::format::Format`] says how all of it is turned into bytes; with it, databases are
//! opened ([`engine::reopen`]), and written to, flushed and compacted ([`engine::store`]). That
//! nothing is lost whenever the work is cut short is stated there, on the grounds of
//! [`engine::job`], [`engine::survive`], [`engine::outlast`] and [`engine::replace`].

pub mod api;
pub mod batch;
pub mod bitmap;
pub mod bytes;
pub mod collection;
mod count;
pub mod engine;
pub mod error;
pub mod filter;
pub mod float;
pub mod id;
pub mod index;
pub mod json;
pub mod kernel;
pub mod lines;
pub mod manifest;
pub mod query;
pub mod segment;
pub mod storage;
pub mod text;
pub mod wal;

pub use collection::{CollectionConfig, IndexKind};
pub use engine::database::{Collection, Database, DatabaseOptions};
pub use error::Error;
pub use filter::{Condition, FieldOp};
pub use id::ExternalId;
pub use index::hnsw::params::HnswParams;
pub use kernel::Metric;
pub use query::{Query, ScoredPoint, ScrollPage};
pub use segment::Point;

use vstd::prelude::*;

verus! {

/// The version of the on-disk formats.
pub const VERSION: u32 = 1;

} // verus!
