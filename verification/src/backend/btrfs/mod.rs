//! Btrfs: what of it is plain computation.

pub mod ioctl;

use vstd::prelude::*;

use crate::error::{ErrorView, Result, RevenantError};
use crate::path::{file_name_of, parent_of, path_text, FsPath};
use crate::text::cat2;

verus! {

/// Btrfs filesystem backend.
#[derive(Debug, Clone, Copy)]
pub struct BtrfsBackend;

impl Default for BtrfsBackend {
    fn default() -> (r: BtrfsBackend)
        ensures
            r == BtrfsBackend,
    {
        BtrfsBackend
    }
}

impl BtrfsBackend {
    /// The backend.
    #[must_use]
    pub fn new() -> (r: Self)
        ensures
            r == BtrfsBackend,
    {
        BtrfsBackend
    }

    /// Extract parent directory and filename from a path.
    pub fn parent_and_name(path: &FsPath) -> (r: Result<(FsPath, String)>)
        ensures
            match r {
                Ok((parent, name)) => parent_of(path@) == Some(parent@) && file_name_of(path@)
                    == Some(name@),
                Err(e) => if parent_of(path@) is None {
                    e@ == ErrorView::Other("no parent for "@ + path_text(path@))
                } else {
                    file_name_of(path@) is None && e@ == ErrorView::Other(
                        "invalid filename in "@ + path_text(path@),
                    )
                },
            },
    {
        let parent = match path.parent() {
            Some(p) => p,
            None => {
                return Err(
                    RevenantError::Other(cat2("no parent for ", path.display().as_str())),
                );
            },
        };
        match path.file_name() {
            Some(n) => Ok((parent, n.to_owned())),
            None => Err(
                RevenantError::Other(cat2("invalid filename in ", path.display().as_str())),
            ),
        }
    }
}

} // verus!
