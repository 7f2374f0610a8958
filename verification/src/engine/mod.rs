//! The engine: what writes and reads do to the segments of a collection, and what a
//! database keeps on disk.

pub mod view;
pub mod write;
pub mod read;
pub mod search;
pub mod laws;
pub mod merge;
pub mod outcome;
pub mod database;
pub mod apply;
pub mod plan;
pub mod promises;
pub mod renew;
pub mod disk;
pub mod durable;
pub mod format;
pub mod fresh;
pub mod reopen;
pub mod room;
pub mod size;
pub mod sweep;
pub mod tally;
pub mod track;
pub mod store;
pub mod tidy;
pub mod survive;
pub mod outlast;
pub mod replace;
pub mod job;
pub mod norms;
pub mod open;
pub mod recover;
pub mod answers;
