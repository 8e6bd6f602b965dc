//! Snapshots as found on disk, and where their parts lie.

use vstd::prelude::*;
use vstd::string::*;

use crate::backend::{subvol_exists, vacant, with_subvolume, FileSystemBackend, FsState};
use crate::config::{Config, ConfigView};
use crate::error::Result;
use crate::metadata::{opt_meta, sidecar_at, sidecar_path, MetaView, SnapshotMetadata};
use crate::path::{path_join, FsPath, PathView};
use crate::snapshot::id::SnapshotId;
use crate::text::{cat3, clone_texts, views};

verus! {

/// The token `strain@id`.
pub open spec fn qualified_text(strain: Seq<char>, id: Seq<char>) -> Seq<char> {
    strain + "@"@ + id
}

/// Render `(strain, id)` as the canonical `strain@id` token.
#[must_use]
pub fn qualified(strain: &str, id: &SnapshotId) -> (r: String)
    ensures
        r@ == qualified_text(strain@, id@),
{
    cat3(strain, "@", id.as_str())
}

/// A discovered snapshot.
#[derive(Debug)]
pub struct SnapshotInfo {
    pub id: SnapshotId,
    pub strain: String,
    /// Subvolumes found for this snapshot.
    pub subvolumes: Vec<String>,
    /// Whether the EFI staging subvolume's snapshot is present.
    pub efi_synced: bool,
    /// Sidecar metadata; `None` if there is none or it cannot be read.
    pub metadata: Option<SnapshotMetadata>,
}

/// A snapshot with its texts.
pub struct InfoView {
    pub id: Seq<char>,
    pub strain: Seq<char>,
    pub subvolumes: Seq<Seq<char>>,
    pub efi_synced: bool,
    pub metadata: Option<MetaView>,
}

impl View for SnapshotInfo {
    type V = InfoView;

    open spec fn view(&self) -> InfoView {
        InfoView {
            id: self.id@,
            strain: self.strain@,
            subvolumes: views(self.subvolumes@),
            efi_synced: self.efi_synced,
            metadata: opt_meta(self.metadata),
        }
    }
}

impl Clone for SnapshotInfo {
    fn clone(&self) -> (r: Self)
        ensures
            r@ == self@,
    {
        let metadata: Option<SnapshotMetadata> = match &self.metadata {
            Some(m) => Some(m.clone()),
            None => None,
        };
        SnapshotInfo {
            id: self.id.clone(),
            strain: self.strain.clone(),
            subvolumes: clone_texts(&self.subvolumes),
            efi_synced: self.efi_synced,
            metadata,
        }
    }
}

/// The snapshots of a list.
pub open spec fn infos(v: Seq<SnapshotInfo>) -> Seq<InfoView> {
    Seq::new(v.len(), |i: int| v[i]@)
}

/// Where snapshots are stored.
pub open spec fn snap_dir_of(c: ConfigView, toplevel: PathView) -> PathView {
    path_join(toplevel, c.sys.snapshot_subvol)
}

/// The path to the snapshot subvolume within the toplevel.
pub fn snapshot_dir(config: &Config, toplevel: &FsPath) -> (r: FsPath)
    ensures
        r@ == snap_dir_of(config@, toplevel@),
{
    toplevel.join(config.sys.snapshot_subvol.as_str())
}

/// The sidecar metadata path of a snapshot.
pub fn sidecar_path_for_snapshot(snap_dir: &FsPath, strain: &str, id: &SnapshotId) -> (r: FsPath)
    ensures
        r@ == sidecar_at(snap_dir@, strain@, id@),
{
    sidecar_path(snap_dir, strain, id.as_str())
}

/// The state in which the snapshot directory exists: as it is, or with the
/// directory newly made under the given UUID.
pub open spec fn with_dir(st: FsState, dir: PathView, uuid: u128) -> FsState {
    if st.subvols.contains_key(dir) {
        st
    } else {
        with_subvolume(st, dir, uuid)
    }
}

/// Ensure the snapshot subvolume exists, creating it if necessary.
pub fn ensure_snapshot_dir<B: FileSystemBackend>(
    config: &Config,
    backend: &mut B,
    toplevel: &FsPath,
) -> (r: Result<FsPath>)
    ensures
        final(backend).reliable() == old(backend).reliable(),
        r matches Ok(p) ==> p@ == snap_dir_of(config@, toplevel@),
        r is Ok ==> exists|uuid: u128|
            final(backend).state() == #[trigger] with_dir(
                old(backend).state(),
                snap_dir_of(config@, toplevel@),
                uuid,
            ),
        r is Ok ==> old(backend).state().subvols.contains_key(snap_dir_of(config@, toplevel@))
            || vacant(old(backend).state(), snap_dir_of(config@, toplevel@)),
        r is Err ==> final(backend).state() == old(backend).state(),
        old(backend).reliable() && (old(backend).state().subvols.contains_key(
            snap_dir_of(config@, toplevel@),
        ) || vacant(old(backend).state(), snap_dir_of(config@, toplevel@))) ==> r is Ok,
{
    let dir = snapshot_dir(config, toplevel);
    let ghost st = backend.state();
    let ghost mut made: u128 = 0;
    if !subvol_exists(backend, &dir) {
        match backend.create_subvolume(&dir) {
            Ok(_) => {
                proof {
                    made = choose|uuid: u128|
                        backend.state() == #[trigger] with_subvolume(st, dir@, uuid);
                    crate::path::lemma_within_self(dir@, dir@);
                    assert(!st.subvols.contains_key(dir@));
                }
            },
            Err(e) => {
                return Err(e);
            },
        }
    }
    assert(backend.state() == with_dir(st, dir@, made));
    Ok(dir)
}

} // verus!
