//! Boot loader entries.

pub mod systemd_boot;

use vstd::prelude::*;

use crate::backend::FileSystemBackend;
use crate::error::Result;
use crate::path::FsPath;
use crate::snapshot::id::SnapshotId;

verus! {

/// Information about a boot loader entry.
#[derive(Debug)]
pub struct BootEntry {
    pub id: String,
    pub title: String,
    pub path: FsPath,
}

/// Abstraction over boot loader operations, on the files of a filesystem.
pub trait BootloaderBackend {
    /// Check if this bootloader is active on the system.
    fn detect<B: FileSystemBackend>(&self, fs: &B) -> (r: Result<bool>);

    /// The path to the EFI system partition.
    fn efi_partition_path(&self) -> (r: Result<FsPath>);

    /// List all boot entries.
    fn list_entries<B: FileSystemBackend>(&self, fs: &B) -> (r: Result<Vec<BootEntry>>);

    /// Create a rollback boot entry for a snapshot.
    fn create_rollback_entry<B: FileSystemBackend>(
        &self,
        fs: &mut B,
        snapshot_id: &SnapshotId,
        rootfs_subvol: &str,
    ) -> (r: Result<()>);

    /// Remove a rollback boot entry.
    fn remove_rollback_entry<B: FileSystemBackend>(
        &self,
        fs: &mut B,
        snapshot_id: &SnapshotId,
    ) -> (r: Result<()>);
}

} // verus!
