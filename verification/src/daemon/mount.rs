//! The mount of the top-level subvolume.

use vstd::prelude::*;
use vstd::string::*;

use crate::text::cat2;

verus! {

/// Where the daemon mounts the btrfs top level.
pub const TOPLEVEL_MOUNT_POINT: &'static str = "/run/revenant/toplevel";

/// The mount option that selects the top-level subvolume.
pub const TOPLEVEL_OPTION: &'static str = "subvolid=5";

/// The device with the given UUID.
pub open spec fn device_of(uuid: Seq<char>) -> Seq<char> {
    "/dev/disk/by-uuid/"@ + uuid
}

/// The device with the given UUID.
pub fn device_path(uuid: &str) -> (r: String)
    ensures
        r@ == device_of(uuid@),
{
    cat2("/dev/disk/by-uuid/", uuid)
}

/// A mounted top-level subvolume.
#[derive(Debug)]
pub struct ToplevelMount {
    path: String,
}

impl ToplevelMount {
    /// Where it is mounted.
    pub closed spec fn mount_point(&self) -> Seq<char> {
        self.path@
    }

    /// The mount at `path`.
    pub fn at(path: String) -> (r: Self)
        ensures
            r.mount_point() == path@,
    {
        ToplevelMount { path }
    }

    /// Where it is mounted.
    pub fn path(&self) -> (r: &str)
        ensures
            r@ == self.mount_point(),
    {
        self.path.as_str()
    }
}

/// Whether a path is a mount point: its device differs from its parent's. A
/// device that cannot be told is none.
pub fn is_mount_point(own: Option<u64>, parent: Option<u64>) -> (r: bool)
    ensures
        r == (own is Some && parent is Some && own->0 != parent->0),
{
    match (own, parent) {
        (Some(a), Some(b)) => a != b,
        _ => false,
    }
}

} // verus!
