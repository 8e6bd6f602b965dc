//! Pacman hook generator.
//!
//! A single PreTransaction hook snapshots the system before every package
//! install, upgrade or removal.

use vstd::prelude::*;
use vstd::string::*;

use crate::pkgmgr::{HookFile, HookParams, PackageManager};
use crate::text::{cat3, cat7, lemma_views_push, views};

verus! {

/// The stock Arch Linux hook directory.
pub const DEFAULT_HOOK_DIR: &'static str = "/etc/pacman.d/hooks";

/// Filename of the generated hook.
pub const HOOK_FILENAME: &'static str = "50-revenant-snapshot.hook";

/// Lock file that pacman holds while its hooks run.
pub const LOCK_FILE: &'static str = "var/lib/pacman/db.lck";

/// Pacman (Arch Linux and derivatives).
#[derive(Debug, Clone, Copy)]
pub struct Pacman;

/// The command line of the hook. A snapshot that fails does not abort the
/// transaction.
pub open spec fn hook_exec(bin: Seq<char>, config: Seq<char>, strain: Seq<char>) -> Seq<char> {
    "/bin/sh -c '"@ + bin + " --config "@ + config + " snapshot "@ + strain
        + " --trigger pacman --from-stdin || true'"@
}

/// The content of the hook.
pub open spec fn hook_content(exec: Seq<char>) -> Seq<char> {
    "[Trigger]\nOperation = Install\nOperation = Upgrade\nOperation = Remove\nType = Package\nTarget = *\n\n[Action]\nDescription = Revenant pre-transaction snapshot\nWhen = PreTransaction\nExec = "@
        + exec + "\nDepends = coreutils\nNeedsTargets\n"@
}

impl PackageManager for Pacman {
    fn name(&self) -> (r: &'static str)
        ensures
            r@ == "pacman"@,
    {
        "pacman"
    }

    fn default_hook_dir(&self) -> (r: &'static str)
        ensures
            r@ == DEFAULT_HOOK_DIR@,
    {
        DEFAULT_HOOK_DIR
    }

    fn generate_hooks(&self, params: &HookParams) -> (r: Vec<HookFile>)
        ensures
            r@.len() == 1,
            r@[0].filename@ == HOOK_FILENAME@,
            r@[0].content@ == hook_content(
                hook_exec(params.bin_path@, params.config_path@, params.strain@),
            ),
    {
        let exec = cat7(
            "/bin/sh -c '",
            params.bin_path.as_str(),
            " --config ",
            params.config_path.as_str(),
            " snapshot ",
            params.strain.as_str(),
            " --trigger pacman --from-stdin || true'",
        );
        let content = cat3(
            "[Trigger]\nOperation = Install\nOperation = Upgrade\nOperation = Remove\nType = Package\nTarget = *\n\n[Action]\nDescription = Revenant pre-transaction snapshot\nWhen = PreTransaction\nExec = ",
            exec.as_str(),
            "\nDepends = coreutils\nNeedsTargets\n",
        );
        let mut hooks: Vec<HookFile> = Vec::new();
        hooks.push(HookFile { filename: HOOK_FILENAME.to_owned(), content });
        hooks
    }

    fn stale_runtime_files(&self) -> (r: Vec<String>)
        ensures
            views(r@) == seq![LOCK_FILE@],
    {
        let mut v: Vec<String> = Vec::new();
        let f: String = LOCK_FILE.to_owned();
        proof {
            lemma_views_push(v@, f);
        }
        v.push(f);
        assert(views(v@) =~= seq![LOCK_FILE@]);
        v
    }
}

} // verus!
