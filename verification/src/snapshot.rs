//! Persisted scan snapshots and the deltas between them.

pub mod codec;
pub mod delta;
pub mod laws;
pub mod model;
pub mod store;

use vstd::prelude::*;

pub use delta::{deltas, top_growers, Delta};
pub use model::{CodecError, Snapshot, SnapshotEntry, SNAPSHOT_FORMAT};
pub use store::{SnapshotMeta, SnapshotStore, StoreError, StoreFile};

verus! {

/// How many snapshots the store keeps by default (across all roots).
pub const DEFAULT_KEEP: usize = 10;

/// Files smaller than this are not recorded in a snapshot by default (10 MiB).
pub const DEFAULT_FILE_THRESHOLD: u64 = 10_485_760;

} // verus!
