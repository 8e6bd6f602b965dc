//! Package-manager hook integration.
//!
//! Each supported package manager produces the hook files that should be
//! installed for it; nothing here touches the disk.

pub mod pacman;

use vstd::prelude::*;

use crate::pkgmgr::pacman::Pacman;

verus! {

/// Input for hook generation.
#[derive(Debug)]
pub struct HookParams {
    /// Absolute path to the `revenantctl` binary that the hook should invoke.
    pub bin_path: String,
    /// Absolute path to the configuration file.
    pub config_path: String,
    /// Strain to snapshot into on each package-manager transaction.
    pub strain: String,
}

/// A generated hook file. The filename has no directory component.
#[derive(Debug)]
pub struct HookFile {
    pub filename: String,
    pub content: String,
}

/// Abstraction over package-manager hook integration.
pub trait PackageManager {
    /// Short stable identifier used in logs, output and flag names.
    fn name(&self) -> (r: &'static str);

    /// Default filesystem location for this package manager's hook files.
    fn default_hook_dir(&self) -> (r: &'static str);

    /// Render the hook files that should be installed.
    fn generate_hooks(&self, params: &HookParams) -> (r: Vec<HookFile>);

    /// Paths, relative to the rootfs subvolume, to delete from a restored
    /// tree: runtime state that the package manager holds across its own
    /// hooks, such as lock files, and that every snapshot taken by a hook
    /// therefore carries.
    fn stale_runtime_files(&self) -> (r: Vec<String>);
}

/// All known package managers.
#[must_use]
pub fn all_package_managers() -> (r: Vec<Pacman>)
    ensures
        r@ == seq![Pacman],
{
    let all = vec![Pacman];
    assert(all@ =~= seq![Pacman]);
    all
}

} // verus!
