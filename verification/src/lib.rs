//! This crate contains [SyncTable] and [SyncPushVec], whose storage stays in place until no reader can
//! see it, and quiescent state based reclamation, for which an API is available in the [collect]
//! module.
//!
//! Whoever shares a table or a vector brings a [collect::Collector] and the state of each thread.

pub mod atomic;
pub mod collect;
pub mod contents;
pub mod hash_builder;
pub mod hash_map;
pub mod intern;
pub mod qsbr;
pub mod raw;
pub mod retired;
pub mod sync_insert_map;
pub mod sync_insert_table;
pub mod sync_push_vec;
pub mod sync_table;
pub mod util;
pub mod workload;

pub use sync_push_vec::SyncPushVec;
pub use sync_table::SyncTable;
