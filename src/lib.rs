//! A small durable key-value store: an in-memory string map whose mutations
//! are written to a line-oriented write-ahead log before they are applied, so
//! that the map can be rebuilt by replaying the log.
use vstd::prelude::*;

pub mod kv_store;
pub mod snapshot;
pub mod wal;

verus! {

} // verus!
