//! Cleaning up: DELETE markers, retention and orphaned sidecars.

pub mod laws;
pub mod policy;
pub mod recovery;
pub mod tombstones;

pub use crate::cleanup::recovery::{
    collect_base_names, delete_subvolume_recursive, recover_orphaned_nested_subvols,
};
pub use crate::cleanup::tombstones::{
    list_tombstones, purge_all_tombstones, purge_expired_tombstones, purge_tombstones_by_name,
    Tombstone,
};
pub use crate::cleanup::policy::{
    apply_retention, apply_retention_force, apply_retention_to, apply_retention_with_now,
    plan_retention, plan_retention_with_now, plan_strains, purge_orphaned_sidecars,
    CleanupSummary, PlanAction, PlanEntry, PlanTombstone, RetentionPlan, StrainPlan,
};
