//! Snapshot identity, discovery and lifecycle.

pub mod discovery;
pub mod id;
pub mod info;
pub mod laws;
pub mod operations;
pub mod target;

pub use crate::snapshot::discovery::{
    discover_snapshots, find_snapshot, resolve_live_parent, LiveParentRef,
};
pub use crate::snapshot::id::{parse_snapshot_subvol_name, SnapshotId};
pub use crate::snapshot::info::{qualified, SnapshotInfo};
pub use crate::snapshot::operations::{
    create_snapshot, delete_all_strain, delete_snapshot, update_snapshot_metadata,
    BulkDeleteOutcome, MetadataPatch,
};
pub use crate::snapshot::target::SnapshotTarget;
