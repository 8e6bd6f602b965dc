//! The `init` command: the configuration and the files that hook the program
//! into the system.

use vstd::prelude::*;
use vstd::string::*;

use crate::assoc::{lemma_lookup_absent, lookup};
use crate::backend::{lemma_has_parent, FileSystemBackend, FsState};
use crate::cli::args::OutputMode;
use crate::config::{
    config_fault, decode_config, refuses, strain_fault, strains_fault, valid_strain_name, Config,
    ConfigView, RetainConfig, StrainConfig, StrainView, SysView,
};
use crate::document::{toml_document, toml_text};
use crate::error::{ErrorView, Result, RevenantError};
use crate::init::{
    build_config, built_config, config_fits, config_to_toml, detect_all, detection_fault,
    encode_config, is_detected, reads_as, retain_fits, writable, DetectedConfig, CONFIG_HEADER,
};
use crate::path::{
    is_component, lemma_within_self, path_join, path_of, path_text, FsPath, PathView,
};
use crate::pkgmgr::pacman::{hook_content, hook_exec, Pacman, HOOK_FILENAME};
use crate::pkgmgr::{HookParams, PackageManager};
use crate::systemd::{
    boot_service_text, exec_line, generate_units, periodic_service_text, periodic_timer_text,
    SystemdUnitParams,
};
use crate::text::{cat2, cat3, cat4, cat5, lemma_views_push, opt_view, same_text, views};

verus! {

/// What became of a generated file.
#[derive(Debug, Clone, Copy, PartialEq, Eq, Structural)]
pub enum FileStatus {
    Written,
    Unchanged,
    Overwritten,
}

/// The name of a file's status.
pub open spec fn status_name(s: FileStatus) -> Seq<char> {
    match s {
        FileStatus::Written => "written"@,
        FileStatus::Unchanged => "unchanged"@,
        FileStatus::Overwritten => "overwritten"@,
    }
}

impl FileStatus {
    /// The name of the status.
    pub fn as_str(&self) -> (r: &'static str)
        ensures
            r@ == status_name(*self),
    {
        match self {
            FileStatus::Written => "written",
            FileStatus::Unchanged => "unchanged",
            FileStatus::Overwritten => "overwritten",
        }
    }
}

/// One step performed by `init`.
#[derive(Debug)]
pub enum InitTask {
    /// System auto-detection results.
    DetectedSystem {
        backend: String,
        device_uuid: String,
        rootfs_subvol: String,
        snapshot_subvol: String,
        efi_mount: Option<String>,
        bootloader: Option<String>,
    },
    /// Configuration file was written. `created` is false where it was there
    /// before.
    WroteConfig { path: String, created: bool },
    /// Strains for the systemd units that the configuration was missing.
    AddedSystemdStrains { strains: Vec<String> },
    /// A systemd unit file was processed.
    WroteSystemdUnit { name: String, status: FileStatus },
    /// A strain for a package manager that the configuration was missing.
    AddedPkgmgrStrain { pm: String, strain: String },
    /// A package-manager hook file was processed.
    WrotePkgmgrHook { pm: String, name: String, status: FileStatus },
}

/// A step with its texts.
pub enum TaskView {
    DetectedSystem {
        backend: Seq<char>,
        device_uuid: Seq<char>,
        rootfs_subvol: Seq<char>,
        snapshot_subvol: Seq<char>,
        efi_mount: Option<Seq<char>>,
        bootloader: Option<Seq<char>>,
    },
    WroteConfig { path: Seq<char>, created: bool },
    AddedSystemdStrains { strains: Seq<Seq<char>> },
    WroteSystemdUnit { name: Seq<char>, status: FileStatus },
    AddedPkgmgrStrain { pm: Seq<char>, strain: Seq<char> },
    WrotePkgmgrHook { pm: Seq<char>, name: Seq<char>, status: FileStatus },
}

impl View for InitTask {
    type V = TaskView;

    open spec fn view(&self) -> TaskView {
        match self {
            InitTask::DetectedSystem {
                backend,
                device_uuid,
                rootfs_subvol,
                snapshot_subvol,
                efi_mount,
                bootloader,
            } => TaskView::DetectedSystem {
                backend: backend@,
                device_uuid: device_uuid@,
                rootfs_subvol: rootfs_subvol@,
                snapshot_subvol: snapshot_subvol@,
                efi_mount: opt_view(*efi_mount),
                bootloader: opt_view(*bootloader),
            },
            InitTask::WroteConfig { path, created } => TaskView::WroteConfig {
                path: path@,
                created: *created,
            },
            InitTask::AddedSystemdStrains { strains } => TaskView::AddedSystemdStrains {
                strains: views(strains@),
            },
            InitTask::WroteSystemdUnit { name, status } => TaskView::WroteSystemdUnit {
                name: name@,
                status: *status,
            },
            InitTask::AddedPkgmgrStrain { pm, strain } => TaskView::AddedPkgmgrStrain {
                pm: pm@,
                strain: strain@,
            },
            InitTask::WrotePkgmgrHook { pm, name, status } => TaskView::WrotePkgmgrHook {
                pm: pm@,
                name: name@,
                status: *status,
            },
        }
    }
}

/// Some steps with their texts.
pub open spec fn task_views(v: Seq<InitTask>) -> Seq<TaskView> {
    Seq::new(v.len(), |i: int| v[i]@)
}

/// The line of a generated file.
pub open spec fn file_line(name: Seq<char>, status: FileStatus) -> Seq<char> {
    if status == FileStatus::Unchanged {
        "  "@ + name + " (unchanged)"@
    } else {
        "  "@ + name
    }
}

/// The lines that report added strains.
pub open spec fn added_lines(v: Seq<Seq<char>>) -> Seq<Seq<char>> {
    Seq::new(v.len(), |i: int| "Added missing strain '"@ + v[i] + "'"@)
}

/// The lines that report a step.
pub open spec fn task_lines(t: TaskView) -> Seq<Seq<char>> {
    match t {
        TaskView::DetectedSystem {
            backend,
            device_uuid,
            rootfs_subvol,
            snapshot_subvol,
            efi_mount,
            bootloader,
        } => seq![
            "Detecting system configuration..."@,
            "  Filesystem: "@ + backend,
            "  Device UUID: "@ + device_uuid,
            "  Rootfs subvol: "@ + rootfs_subvol,
            "  Snapshot subvol: "@ + snapshot_subvol,
            match efi_mount {
                Some(p) => "  EFI mount: "@ + p,
                None => "  EFI: not detected"@,
            },
            match bootloader {
                Some(b) => "  Bootloader: "@ + b,
                None => "  Bootloader: not detected"@,
            },
        ],
        TaskView::WroteConfig { path, created: _ } => seq![
            "\nConfiguration written to "@ + path,
            "Review and adjust as needed, then create snapshots with: revenantctl snapshot"@,
        ],
        TaskView::AddedSystemdStrains { strains } => added_lines(strains),
        TaskView::WroteSystemdUnit { name, status } => seq![file_line(name, status)],
        TaskView::AddedPkgmgrStrain { pm: _, strain } => added_lines(seq![strain]),
        TaskView::WrotePkgmgrHook { pm: _, name, status } => seq![file_line(name, status)],
    }
}

/// The lines that report some steps.
pub open spec fn all_task_lines(v: Seq<TaskView>) -> Seq<Seq<char>>
    decreases v.len(),
{
    if v.len() == 0 {
        Seq::empty()
    } else {
        all_task_lines(v.drop_last()) + task_lines(v.last())
    }
}

proof fn lemma_one_task(t: TaskView)
    ensures
        all_task_lines(seq![t]) == task_lines(t),
{
    reveal_with_fuel(all_task_lines, 2);
    assert(seq![t].drop_last() =~= Seq::empty());
    assert(Seq::<Seq<char>>::empty() + task_lines(t) =~= task_lines(t));
}

proof fn lemma_task_lines_concat(a: Seq<TaskView>, b: Seq<TaskView>)
    ensures
        all_task_lines(a + b) == all_task_lines(a) + all_task_lines(b),
    decreases b.len(),
{
    if b.len() == 0 {
        assert(a + b =~= a);
        assert(all_task_lines(a) + Seq::<Seq<char>>::empty() =~= all_task_lines(a));
    } else {
        lemma_task_lines_concat(a, b.drop_last());
        assert((a + b).drop_last() =~= a + b.drop_last());
        assert((a + b).last() == b.last());
        assert(all_task_lines(a) + (all_task_lines(b.drop_last()) + task_lines(b.last()))
            =~= all_task_lines(a) + all_task_lines(b.drop_last()) + task_lines(b.last()));
    }
}

/// Collects what `init` does: lines in text mode, steps in JSON mode.
#[derive(Debug)]
pub struct InitReporter {
    pub mode: OutputMode,
    pub tasks: Vec<InitTask>,
    pub lines: Vec<String>,
}

fn emit(out: &mut Vec<String>, line: String)
    ensures
        views(final(out)@) == views(old(out)@).push(line@),
{
    proof {
        lemma_views_push(out@, line);
    }
    out.push(line);
}

fn emit_added(out: &mut Vec<String>, v: &Vec<String>)
    ensures
        views(final(out)@) == views(old(out)@) + added_lines(views(v@)),
{
    let ghost before = views(out@);
    let ghost all = added_lines(views(v@));
    let mut i: usize = 0;
    assert(views(out@) =~= before + all.take(0));
    while i < v.len()
        invariant
            i <= v.len(),
            all == added_lines(views(v@)),
            views(out@) == before + all.take(i as int),
        decreases v.len() - i,
    {
        let line = cat3("Added missing strain '", v[i].as_str(), "'");
        proof {
            assert(all.take(i + 1) =~= all.take(i as int).push(line@));
            assert(before + all.take(i + 1) =~= (before + all.take(i as int)).push(line@));
        }
        emit(out, line);
        i = i + 1;
    }
    assert(all.take(i as int) =~= all);
}

fn emit_file(out: &mut Vec<String>, name: &str, status: FileStatus)
    ensures
        views(final(out)@) == views(old(out)@).push(file_line(name@, status)),
{
    if status == FileStatus::Unchanged {
        emit(out, cat3("  ", name, " (unchanged)"));
    } else {
        emit(out, cat2("  ", name));
    }
}

fn emit_task(out: &mut Vec<String>, task: &InitTask)
    ensures
        views(final(out)@) == views(old(out)@) + task_lines(task@),
{
    let ghost before = views(out@);
    match task {
        InitTask::DetectedSystem {
            backend,
            device_uuid,
            rootfs_subvol,
            snapshot_subvol,
            efi_mount,
            bootloader,
        } => {
            emit(out, "Detecting system configuration...".to_owned());
            emit(out, cat2("  Filesystem: ", backend.as_str()));
            emit(out, cat2("  Device UUID: ", device_uuid.as_str()));
            emit(out, cat2("  Rootfs subvol: ", rootfs_subvol.as_str()));
            emit(out, cat2("  Snapshot subvol: ", snapshot_subvol.as_str()));
            match efi_mount {
                Some(p) => emit(out, cat2("  EFI mount: ", p.as_str())),
                None => emit(out, "  EFI: not detected".to_owned()),
            }
            match bootloader {
                Some(b) => emit(out, cat2("  Bootloader: ", b.as_str())),
                None => emit(out, "  Bootloader: not detected".to_owned()),
            }
        },
        InitTask::WroteConfig { path, created: _ } => {
            emit(out, cat2("\nConfiguration written to ", path.as_str()));
            emit(
                out,
                "Review and adjust as needed, then create snapshots with: revenantctl snapshot".to_owned(),
            );
        },
        InitTask::AddedSystemdStrains { strains } => {
            emit_added(out, strains);
        },
        InitTask::WroteSystemdUnit { name, status } => {
            emit_file(out, name.as_str(), *status);
        },
        InitTask::AddedPkgmgrStrain { pm: _, strain } => {
            emit(out, cat3("Added missing strain '", strain.as_str(), "'"));
        },
        InitTask::WrotePkgmgrHook { pm: _, name, status } => {
            emit_file(out, name.as_str(), *status);
        },
    }
    assert(views(out@) =~= before + task_lines(task@));
}

/// The lines after the last unit file.
pub open spec fn systemd_footer_lines() -> Seq<Seq<char>> {
    seq![
        "\nEnable boot snapshots:"@,
        "  systemctl enable revenant-boot.service"@,
        "\nEnable periodic snapshots:"@,
        "  systemctl enable --now revenant-periodic.timer"@,
    ]
}

/// The lines after the last hook file.
pub open spec fn pkgmgr_footer_lines(pm: Seq<char>) -> Seq<Seq<char>> {
    seq![
        "\nThe "@ + pm + " hook is active immediately — the next transaction will"@,
        "take a snapshot into the configured strain."@,
    ]
}

/// Whether `b` is `a` with more to report: the given steps in JSON mode, the
/// given lines in text mode.
pub open spec fn shows(
    a: InitReporter,
    b: InitReporter,
    tasks: Seq<TaskView>,
    lines: Seq<Seq<char>>,
) -> bool {
    &&& b.mode == a.mode
    &&& a.mode == OutputMode::Json ==> task_views(b.tasks@) == task_views(a.tasks@) + tasks
        && b.lines == a.lines
    &&& a.mode == OutputMode::Text ==> b.tasks == a.tasks && views(b.lines@) == views(a.lines@)
        + lines
}

proof fn lemma_shows_nothing(a: InitReporter)
    ensures
        shows(a, a, Seq::empty(), Seq::empty()),
{
    assert(task_views(a.tasks@) + Seq::<TaskView>::empty() =~= task_views(a.tasks@));
    assert(views(a.lines@) + Seq::<Seq<char>>::empty() =~= views(a.lines@));
}

proof fn lemma_shows_more(
    a: InitReporter,
    b: InitReporter,
    c: InitReporter,
    t1: Seq<TaskView>,
    l1: Seq<Seq<char>>,
    t2: Seq<TaskView>,
    l2: Seq<Seq<char>>,
)
    requires
        shows(a, b, t1, l1),
        shows(b, c, t2, l2),
    ensures
        shows(a, c, t1 + t2, l1 + l2),
{
    assert(task_views(a.tasks@) + t1 + t2 =~= task_views(a.tasks@) + (t1 + t2));
    assert(views(a.lines@) + l1 + l2 =~= views(a.lines@) + (l1 + l2));
}

impl InitReporter {
    /// A reporter that has nothing to report yet.
    #[must_use]
    pub fn new(mode: OutputMode) -> (r: Self)
        ensures
            r.mode == mode,
            r.tasks@.len() == 0,
            r.lines@.len() == 0,
    {
        InitReporter { mode, tasks: Vec::new(), lines: Vec::new() }
    }

    /// Record a step.
    pub fn task(&mut self, task: InitTask)
        ensures
            shows(*old(self), *final(self), seq![task@], task_lines(task@)),
    {
        let ghost before = *self;
        if self.mode.is_json() {
            self.tasks.push(task);
            assert(task_views(self.tasks@) =~= task_views(before.tasks@) + seq![task@]);
        } else {
            emit_task(&mut self.lines, &task);
        }
    }

    fn note(&mut self, line: String)
        ensures
            shows(*old(self), *final(self), Seq::empty(), seq![line@]),
    {
        let ghost before = *self;
        if !self.mode.is_json() {
            emit(&mut self.lines, line);
            assert(views(self.lines@) =~= views(before.lines@) + seq![line@]);
        } else {
            proof {
                lemma_shows_nothing(before);
            }
        }
    }

    /// Header before the first unit file.
    pub fn systemd_header(&mut self, dir: &str)
        ensures
            shows(
                *old(self),
                *final(self),
                Seq::empty(),
                seq!["\nWriting systemd units to "@ + dir@ + "/"@],
            ),
    {
        self.note(cat3("\nWriting systemd units to ", dir, "/"));
    }

    /// Footer after the last unit file.
    pub fn systemd_footer(&mut self)
        ensures
            shows(*old(self), *final(self), Seq::empty(), systemd_footer_lines()),
    {
        let ghost s0 = *self;
        self.note("\nEnable boot snapshots:".to_owned());
        let ghost s1 = *self;
        self.note("  systemctl enable revenant-boot.service".to_owned());
        let ghost s2 = *self;
        self.note("\nEnable periodic snapshots:".to_owned());
        let ghost s3 = *self;
        self.note("  systemctl enable --now revenant-periodic.timer".to_owned());
        proof {
            let l1 = seq!["\nEnable boot snapshots:"@];
            let l2 = seq!["  systemctl enable revenant-boot.service"@];
            let l3 = seq!["\nEnable periodic snapshots:"@];
            let l4 = seq!["  systemctl enable --now revenant-periodic.timer"@];
            lemma_shows_more(s0, s1, s2, Seq::empty(), l1, Seq::empty(), l2);
            lemma_shows_more(s0, s2, s3, Seq::empty() + Seq::empty(), l1 + l2, Seq::empty(), l3);
            let e = Seq::<TaskView>::empty();
            lemma_shows_more(s0, s3, *self, e + e + e, l1 + l2 + l3, e, l4);
            assert(e + e + e + e =~= e);
            assert(l1 + l2 + l3 + l4 =~= systemd_footer_lines());
        }
    }

    /// Header before the first hook file of a package manager.
    pub fn pkgmgr_header(&mut self, pm: &str, dir: &str)
        ensures
            shows(
                *old(self),
                *final(self),
                Seq::empty(),
                seq!["\nWriting "@ + pm@ + " hook to "@ + dir@ + "/"@],
            ),
    {
        self.note(cat5("\nWriting ", pm, " hook to ", dir, "/"));
    }

    /// Footer after the last hook file of a package manager.
    pub fn pkgmgr_footer(&mut self, pm: &str)
        ensures
            shows(*old(self), *final(self), Seq::empty(), pkgmgr_footer_lines(pm@)),
    {
        let ghost s0 = *self;
        let first = cat3("\nThe ", pm, " hook is active immediately — the next transaction will");
        self.note(first);
        let ghost s1 = *self;
        self.note("take a snapshot into the configured strain.".to_owned());
        proof {
            let l1 = seq![first@];
            let l2 = seq!["take a snapshot into the configured strain."@];
            let e = Seq::<TaskView>::empty();
            lemma_shows_more(s0, s1, *self, e, l1, e, l2);
            assert(e + e =~= e);
            assert(l1 + l2 =~= pkgmgr_footer_lines(pm@));
        }
    }

    /// The steps to be shown as a document: in JSON mode all of them.
    pub fn finish(self) -> (r: Option<Vec<InitTask>>)
        ensures
            r == (if self.mode == OutputMode::Json {
                Some(self.tasks)
            } else {
                None
            }),
    {
        if self.mode.is_json() {
            Some(self.tasks)
        } else {
            None
        }
    }
}

/// The strain for a hook, with the given retention.
pub open spec fn hook_strain(c: ConfigView, retain: RetainConfig) -> StrainView {
    StrainView {
        display_name: None,
        retain,
        subvolumes: seq![c.sys.rootfs_subvol],
        efi: c.sys.efi_enabled,
    }
}

/// Retention of boot snapshots.
pub open spec fn boot_retain() -> RetainConfig {
    RetainConfig { last: 5, hourly: 0, daily: 0, weekly: 0, monthly: 0, yearly: 0 }
}

/// Retention of periodic snapshots.
pub open spec fn periodic_retain() -> RetainConfig {
    RetainConfig { last: 5, hourly: 48, daily: 14, weekly: 0, monthly: 0, yearly: 0 }
}

/// Retention of package-manager snapshots.
pub open spec fn pacman_retain() -> RetainConfig {
    RetainConfig { last: 10, hourly: 0, daily: 0, weekly: 0, monthly: 0, yearly: 0 }
}

/// The configuration with a strain of the given name: its own, or a new one.
pub open spec fn ensured(c: ConfigView, name: Seq<char>, retain: RetainConfig) -> ConfigView {
    if lookup(c.strain, name) is Some {
        c
    } else {
        ConfigView { strain: c.strain.push((name, hook_strain(c, retain))), ..c }
    }
}

/// The names of those strains that a configuration is missing.
pub open spec fn missing(c: ConfigView, name: Seq<char>) -> Seq<Seq<char>> {
    if lookup(c.strain, name) is Some {
        Seq::empty()
    } else {
        seq![name]
    }
}

fn ensure_strain(config: &mut Config, name: &str, retain: RetainConfig) -> (r: bool)
    ensures
        final(config)@ == ensured(old(config)@, name@, retain),
        r == (lookup(old(config)@.strain, name@) is None),
{
    if config.strain.contains_key(name) {
        return false;
    }
    let ghost before = config@.strain;
    let mut subvolumes: Vec<String> = Vec::new();
    subvolumes.push(config.sys.rootfs_subvol.clone());
    assert(views(subvolumes@) =~= seq![config@.sys.rootfs_subvol]);
    let efi = config.sys.efi.enabled;
    let strain = StrainConfig { display_name: None, retain, subvolumes, efi };
    proof {
        lemma_lookup_absent(before, name@);
        crate::config::lemma_with_strain_new(before, name@, strain@);
    }
    config.strain.insert(name.to_owned(), strain);
    true
}

/// Insert the boot and periodic strains into `config` if they are not already
/// defined. Returns the names of the strains that were added. Strains of that
/// name that are there are left untouched.
pub fn ensure_systemd_strains(config: &mut Config, boot_strain: &str, periodic_strain: &str) -> (r:
    Vec<String>)
    ensures
        final(config)@ == ensured(
            ensured(old(config)@, boot_strain@, boot_retain()),
            periodic_strain@,
            periodic_retain(),
        ),
        views(r@) == missing(old(config)@, boot_strain@) + missing(
            ensured(old(config)@, boot_strain@, boot_retain()),
            periodic_strain@,
        ),
{
    let mut added: Vec<String> = Vec::new();
    let boot = RetainConfig { last: 5, hourly: 0, daily: 0, weekly: 0, monthly: 0, yearly: 0 };
    let periodic = RetainConfig { last: 5, hourly: 48, daily: 14, weekly: 0, monthly: 0, yearly: 0 };
    if ensure_strain(config, boot_strain, boot) {
        emit(&mut added, boot_strain.to_owned());
    }
    if ensure_strain(config, periodic_strain, periodic) {
        emit(&mut added, periodic_strain.to_owned());
    }
    assert(views(added@) =~= missing(old(config)@, boot_strain@) + missing(
        ensured(old(config)@, boot_strain@, boot_retain()),
        periodic_strain@,
    ));
    added
}

/// Insert the pacman strain into `config` if it does not already exist.
/// Returns whether it was inserted.
pub fn ensure_pacman_strain(config: &mut Config, pacman_strain: &str) -> (r: bool)
    ensures
        final(config)@ == ensured(old(config)@, pacman_strain@, pacman_retain()),
        r == (lookup(old(config)@.strain, pacman_strain@) is None),
{
    let retain = RetainConfig { last: 10, hourly: 0, daily: 0, weekly: 0, monthly: 0, yearly: 0 };
    ensure_strain(config, pacman_strain, retain)
}

/// The state after the first `k` files were put into `dir`.
pub open spec fn installed(
    st: FsState,
    dir: PathView,
    files: Seq<(Seq<char>, Seq<char>)>,
    k: nat,
) -> FsState
    decreases k,
{
    if k == 0 || k > files.len() {
        st
    } else {
        let before = installed(st, dir, files, (k - 1) as nat);
        FsState {
            files: before.files.insert(path_join(dir, files[k - 1].0), files[k - 1].1),
            ..before
        }
    }
}

/// What becomes of a file that is put at `p`.
pub open spec fn install_status(st: FsState, p: PathView, content: Seq<char>) -> FileStatus {
    if !st.files.contains_key(p) {
        FileStatus::Written
    } else if st.files[p] == content {
        FileStatus::Unchanged
    } else {
        FileStatus::Overwritten
    }
}

/// What becomes of the file number `i` of those put into `dir`.
pub open spec fn nth_status(
    st: FsState,
    dir: PathView,
    files: Seq<(Seq<char>, Seq<char>)>,
    i: int,
) -> FileStatus {
    install_status(
        installed(st, dir, files, i as nat),
        path_join(dir, files[i].0),
        files[i].1,
    )
}

/// Whether the file number `i` is there with different content.
pub open spec fn in_the_way(
    st: FsState,
    dir: PathView,
    files: Seq<(Seq<char>, Seq<char>)>,
    i: int,
) -> bool {
    nth_status(st, dir, files, i) == FileStatus::Overwritten
}

/// A file to be generated.
#[derive(Debug)]
pub struct NewFile {
    pub name: String,
    pub content: String,
}

/// Names and contents of some files.
pub open spec fn file_views(v: Seq<NewFile>) -> Seq<(Seq<char>, Seq<char>)> {
    Seq::new(v.len(), |i: int| (v[i].name@, v[i].content@))
}

/// Whether the files have plain names.
pub open spec fn plain_names(files: Seq<(Seq<char>, Seq<char>)>) -> bool {
    forall|i: int| 0 <= i < files.len() ==> is_component((#[trigger] files[i]).0)
}

/// Put generated files into `dir`. A file that is there with the same content
/// is left alone; one with different content is an error without `force`.
/// `what` names the kind of file in that error.
pub fn install_files<B: FileSystemBackend>(
    fs: &mut B,
    dir: &FsPath,
    files: &Vec<NewFile>,
    force: bool,
    what: &str,
) -> (r: Result<Vec<FileStatus>>)
    ensures
        final(fs).reliable() == old(fs).reliable(),
        r is Ok ==> final(fs).state() == installed(
            old(fs).state(),
            dir@,
            file_views(files@),
            files@.len(),
        ) && r->Ok_0@.len() == files@.len(),
        r is Ok && old(fs).reliable() ==> forall|i: int|
            0 <= i < files@.len() ==> #[trigger] r->Ok_0@[i] == nth_status(
                old(fs).state(),
                dir@,
                file_views(files@),
                i,
            ),
        r is Ok && old(fs).reliable() && !force ==> forall|i: int|
            0 <= i < files@.len() ==> !#[trigger] in_the_way(
                old(fs).state(),
                dir@,
                file_views(files@),
                i,
            ),
        r is Err ==> exists|k: nat|
            k <= files@.len() && final(fs).state() == #[trigger] installed(
                old(fs).state(),
                dir@,
                file_views(files@),
                k,
            ),
        old(fs).reliable() && plain_names(file_views(files@)) && (forall|i: int|
            0 <= i < files@.len() ==> force || !#[trigger] in_the_way(
                old(fs).state(),
                dir@,
                file_views(files@),
                i,
            )) ==> r is Ok,
        old(fs).reliable() && plain_names(file_views(files@)) && r is Err ==> exists|i: int|
            0 <= i < files@.len() && !force && #[trigger] in_the_way(
                old(fs).state(),
                dir@,
                file_views(files@),
                i,
            ) && r->Err_0@ == ErrorView::Other(
                what@ + " already exists with different content: "@ + path_text(
                    path_join(dir@, files@[i].name@),
                ) + "\nUse --force to overwrite."@,
            ),
{
    let ghost st = fs.state();
    let ghost all = file_views(files@);
    match fs.create_dir_all(dir) {
        Ok(_) => {},
        Err(e) => {
            assert(installed(st, dir@, all, 0) == st);
            return Err(e);
        },
    }
    proof {
        lemma_within_self(dir@, dir@);
    }
    let mut out: Vec<FileStatus> = Vec::new();
    let mut i: usize = 0;
    while i < files.len()
        invariant
            i <= files.len(),
            all == file_views(files@),
            st == old(fs).state(),
            fs.reliable() == old(fs).reliable(),
            fs.state() == installed(st, dir@, all, i as nat),
            fs.directories().contains(dir@),
            out@.len() == i,
            fs.reliable() ==> forall|j: int|
                0 <= j < i ==> #[trigger] out@[j] == nth_status(st, dir@, all, j),
            fs.reliable() && !force ==> forall|j: int|
                0 <= j < i ==> !#[trigger] in_the_way(st, dir@, all, j),
        decreases files.len() - i,
    {
        let f = &files[i];
        let path = dir.join(f.name.as_str());
        let ghost now = fs.state();
        let found = fs.read_file(&path);
        let status = match &found {
            Ok(text) => match text {
                None => FileStatus::Written,
                Some(t) => if same_text(t.as_str(), f.content.as_str()) {
                    FileStatus::Unchanged
                } else {
                    FileStatus::Overwritten
                },
            },
            Err(_) => FileStatus::Overwritten,
        };
        assert(fs.reliable() ==> status == nth_status(st, dir@, all, i as int));
        if status == FileStatus::Overwritten && !force {
            let e: Result<Vec<FileStatus>> = Err(
                RevenantError::Other(
                    cat4(
                        what,
                        " already exists with different content: ",
                        path.display().as_str(),
                        "\nUse --force to overwrite.",
                    ),
                ),
            );
            proof {
                if fs.reliable() {
                    assert(in_the_way(st, dir@, all, i as int));
                }
            }
            return e;
        }
        if status == FileStatus::Unchanged {
            assert(now.files.insert(path@, f.content@) =~= now.files);
        } else {
            proof {
                assert(all[i as int].0 == f.name@);
                if plain_names(all) {
                    lemma_has_parent(fs.state(), fs.directories(), dir@, f.name@);
                }
            }
            match fs.write_file(&path, f.content.as_str()) {
                Ok(_) => {},
                Err(e) => {
                    return Err(e);
                },
            }
        }
        out.push(status);
        i = i + 1;
    }
    Ok(out)
}

/// What is asked of `init`.
#[derive(Debug)]
pub struct InitArgs {
    pub output_path: String,
    pub force: bool,
    pub systemd: bool,
    pub systemd_dir: String,
    /// Path of the program that generated files call.
    pub bin_path: String,
    pub timer_interval: String,
    pub periodic_strain: String,
    pub boot_strain: String,
    pub pacman: bool,
    pub pacman_dir: String,
    pub pacman_strain: String,
}

/// What can be told of the system: the mounts, the UUID of the root device,
/// and which of the files that tell the bootloader exist.
#[derive(Debug)]
pub struct SystemProbe {
    pub mountinfo: String,
    pub device_uuid: Option<String>,
    pub existing: Vec<String>,
}

/// The configuration with the strains that the requested hooks need.
pub open spec fn extended(c: ConfigView, args: InitArgs) -> ConfigView {
    let a = if args.systemd {
        ensured(
            ensured(c, args.boot_strain@, boot_retain()),
            args.periodic_strain@,
            periodic_retain(),
        )
    } else {
        c
    };
    if args.pacman {
        ensured(a, args.pacman_strain@, pacman_retain())
    } else {
        a
    }
}

/// The steps that add the strains that the requested hooks need.
pub open spec fn extension_tasks(c: ConfigView, args: InitArgs) -> Seq<TaskView> {
    let added = missing(c, args.boot_strain@) + missing(
        ensured(c, args.boot_strain@, boot_retain()),
        args.periodic_strain@,
    );
    let before = extended(c, (InitArgs { pacman: false, ..args }));
    (if args.systemd && added.len() > 0 {
        seq![TaskView::AddedSystemdStrains { strains: added }]
    } else {
        Seq::empty()
    }) + (if args.pacman && lookup(before.strain, args.pacman_strain@) is None {
        seq![TaskView::AddedPkgmgrStrain { pm: "pacman"@, strain: args.pacman_strain@ }]
    } else {
        Seq::empty()
    })
}

/// Add the strains that the requested hooks need. Returns whether any was
/// added.
pub fn extend_config(reporter: &mut InitReporter, config: &mut Config, args: &InitArgs) -> (r: bool)
    ensures
        shows(
            *old(reporter),
            *final(reporter),
            extension_tasks(old(config)@, *args),
            all_task_lines(extension_tasks(old(config)@, *args)),
        ),
        final(config)@ == extended(old(config)@, *args),
        r == (extension_tasks(old(config)@, *args).len() > 0),
        !r ==> final(config)@ == old(config)@,
{
    let mut touched = false;
    let ghost c = config@;
    let ghost s0 = *reporter;
    let ghost mut t1 = Seq::<TaskView>::empty();
    proof {
        lemma_shows_nothing(s0);
    }
    if args.systemd {
        let added = ensure_systemd_strains(
            config,
            args.boot_strain.as_str(),
            args.periodic_strain.as_str(),
        );
        assert(views(added@).len() == added@.len());
        if added.len() > 0 {
            let task = InitTask::AddedSystemdStrains { strains: added };
            proof {
                t1 = seq![task@];
                lemma_one_task(task@);
            }
            reporter.task(task);
            touched = true;
        }
    }
    let ghost s1 = *reporter;
    assert(shows(s0, s1, t1, all_task_lines(t1)));
    if args.pacman && ensure_pacman_strain(config, args.pacman_strain.as_str()) {
        let task = InitTask::AddedPkgmgrStrain {
            pm: Pacman.name().to_owned(),
            strain: args.pacman_strain.clone(),
        };
        let ghost t2 = seq![task@];
        reporter.task(task);
        proof {
            lemma_shows_more(s0, s1, *reporter, t1, all_task_lines(t1), t2, task_lines(t2[0]));
            assert((t1 + t2).drop_last() =~= t1);
            assert((t1 + t2).last() == t2[0]);
            assert(t1 + t2 =~= extension_tasks(c, *args));
        }
        touched = true;
    } else {
        assert(t1 =~= extension_tasks(c, *args));
    }
    touched
}

/// The text of a configuration file.
pub open spec fn config_text(c: ConfigView) -> Seq<char> {
    CONFIG_HEADER@ + toml_text(encode_config(c))->Ok_0
}

/// The state after a configuration was written to `path`.
pub open spec fn config_written(st: FsState, path: PathView, c: ConfigView) -> FsState {
    FsState { files: st.files.insert(path, config_text(c)), ..st }
}

/// Serialize `config` and write it to `path`, creating the parent directory if
/// needed.
pub fn write_config_to<B: FileSystemBackend>(fs: &mut B, config: &Config, path: &FsPath) -> (r:
    Result<()>)
    ensures
        final(fs).reliable() == old(fs).reliable(),
        r is Ok ==> config_fits(config@) && toml_text(encode_config(config@)) is Ok && final(
            fs).state() == config_written(old(fs).state(), path@, config@),
        r is Err ==> final(fs).state() == old(fs).state(),
        old(fs).reliable() && config_fits(config@) && toml_text(encode_config(config@)) is Ok
            ==> r is Ok,
        old(fs).reliable() && writable(config@) ==> r is Ok,
        r is Ok && writable(config@) ==> reads_as(final(fs).state().files[path@], config@),
{
    let text = match config_to_toml(config) {
        Ok(t) => t,
        Err(e) => {
            return Err(e);
        },
    };
    match path.parent() {
        Some(p) => match fs.create_dir_all(&p) {
            Ok(_) => {
                proof {
                    lemma_within_self(p@, p@);
                }
            },
            Err(e) => {
                return Err(e);
            },
        },
        None => {},
    }
    fs.write_file(path, text.as_str())
}

/// The unit files with the given parameters.
pub open spec fn unit_views(args: InitArgs) -> Seq<(Seq<char>, Seq<char>)> {
    seq![
        (
            "revenant-boot.service"@,
            boot_service_text(
                exec_line(args.bin_path@, args.output_path@, args.boot_strain@, "systemd-boot"@),
            ),
        ),
        (
            "revenant-periodic.service"@,
            periodic_service_text(
                exec_line(
                    args.bin_path@,
                    args.output_path@,
                    args.periodic_strain@,
                    "systemd-periodic"@,
                ),
            ),
        ),
        ("revenant-periodic.timer"@, periodic_timer_text(args.timer_interval@)),
    ]
}

/// The hook files with the given parameters.
pub open spec fn hook_views(args: InitArgs) -> Seq<(Seq<char>, Seq<char>)> {
    seq![
        (
            HOOK_FILENAME@,
            hook_content(hook_exec(args.bin_path@, args.output_path@, args.pacman_strain@)),
        ),
    ]
}

/// The steps that write the unit files.
pub open spec fn unit_tasks(st: FsState, args: InitArgs) -> Seq<TaskView> {
    let files = unit_views(args);
    Seq::new(
        files.len(),
        |i: int|
            TaskView::WroteSystemdUnit {
                name: files[i].0,
                status: nth_status(st, path_of(args.systemd_dir@), files, i),
            },
    )
}

/// The lines that report the unit files.
pub open spec fn unit_lines(st: FsState, args: InitArgs) -> Seq<Seq<char>> {
    seq!["\nWriting systemd units to "@ + args.systemd_dir@ + "/"@] + all_task_lines(
        unit_tasks(st, args),
    ) + systemd_footer_lines()
}

/// The steps that write the hook files.
pub open spec fn hook_tasks(st: FsState, args: InitArgs) -> Seq<TaskView> {
    let files = hook_views(args);
    Seq::new(
        files.len(),
        |i: int|
            TaskView::WrotePkgmgrHook {
                pm: "pacman"@,
                name: files[i].0,
                status: nth_status(st, path_of(args.pacman_dir@), files, i),
            },
    )
}

/// The lines that report the hook files.
pub open spec fn hook_lines(st: FsState, args: InitArgs) -> Seq<Seq<char>> {
    seq!["\nWriting "@ + "pacman"@ + " hook to "@ + args.pacman_dir@ + "/"@] + all_task_lines(
        hook_tasks(st, args),
    ) + pkgmgr_footer_lines("pacman"@)
}

/// Write the systemd units. Unchanged files are left alone, differing files
/// require `force`.
pub fn write_systemd_units<B: FileSystemBackend>(
    fs: &mut B,
    reporter: &mut InitReporter,
    args: &InitArgs,
) -> (r: Result<()>)
    ensures
        final(reporter).mode == old(reporter).mode,
        final(fs).reliable() == old(fs).reliable(),
        r is Ok ==> final(fs).state() == installed(
            old(fs).state(),
            path_of(args.systemd_dir@),
            unit_views(*args),
            3,
        ),
        r is Ok && old(fs).reliable() ==> shows(
            *old(reporter),
            *final(reporter),
            unit_tasks(old(fs).state(), *args),
            unit_lines(old(fs).state(), *args),
        ),
        r is Err ==> exists|k: nat|
            k <= 3 && final(fs).state() == #[trigger] installed(
                old(fs).state(),
                path_of(args.systemd_dir@),
                unit_views(*args),
                k,
            ),
        old(fs).reliable() ==> (r is Ok <==> (args.force || forall|i: int|
            0 <= i < 3 ==> !#[trigger] in_the_way(
                old(fs).state(),
                path_of(args.systemd_dir@),
                unit_views(*args),
                i,
            ))),
{
    let params = SystemdUnitParams {
        bin_path: args.bin_path.clone(),
        config_path: args.output_path.clone(),
        boot_strain: args.boot_strain.clone(),
        periodic_strain: args.periodic_strain.clone(),
        timer_calendar: args.timer_interval.clone(),
    };
    let units = generate_units(&params);
    let mut files: Vec<NewFile> = Vec::new();
    let mut i: usize = 0;
    while i < units.len()
        invariant
            i <= units.len(),
            files@.len() == i,
            forall|j: int|
                0 <= j < i ==> (#[trigger] files@[j]).name@ == units@[j].filename@
                    && files@[j].content@ == units@[j].content@,
        decreases units.len() - i,
    {
        files.push(
            NewFile { name: units[i].filename.clone(), content: units[i].content.clone() },
        );
        i = i + 1;
    }
    assert(file_views(files@) =~= unit_views(*args));
    proof {
        reveal_strlit(".");
        reveal_strlit("revenant-boot.service");
        reveal_strlit("revenant-periodic.service");
        reveal_strlit("revenant-periodic.timer");
        assert(plain_names(unit_views(*args)));
    }
    let dir = FsPath::new(args.systemd_dir.as_str());
    let ghost st = fs.state();
    let ghost s0 = *reporter;
    reporter.systemd_header(args.systemd_dir.as_str());
    let ghost head = seq!["\nWriting systemd units to "@ + args.systemd_dir@ + "/"@];
    match install_files(fs, &dir, &files, args.force, "unit file") {
        Ok(v) => {
            let ghost all = unit_tasks(st, *args);
            let ghost s1 = *reporter;
            let ghost e = Seq::<TaskView>::empty();
            let mut k: usize = 0;
            proof {
                assert(all.take(0) =~= e);
                assert(head + all_task_lines(all.take(0)) =~= head);
            }
            while k < files.len()
                invariant
                    k <= files.len(),
                    files@.len() == 3,
                    v@.len() == 3,
                    file_views(files@) == unit_views(*args),
                    all == unit_tasks(st, *args),
                    dir@ == path_of(args.systemd_dir@),
                    fs.reliable() ==> forall|j: int|
                        0 <= j < 3 ==> #[trigger] v@[j] == nth_status(
                            st,
                            dir@,
                            file_views(files@),
                            j,
                        ),
                    reporter.mode == s0.mode,
                    fs.reliable() ==> shows(
                        s0,
                        *reporter,
                        all.take(k as int),
                        head + all_task_lines(all.take(k as int)),
                    ),
                decreases files.len() - k,
            {
                let task = InitTask::WroteSystemdUnit {
                    name: files[k].name.clone(),
                    status: v[k],
                };
                let ghost before = *reporter;
                reporter.task(task);
                proof {
                    if fs.reliable() {
                        assert(file_views(files@)[k as int].0 == files@[k as int].name@);
                        assert(task@ == all[k as int]);
                        let done = all.take(k as int);
                        lemma_shows_more(
                            s0,
                            before,
                            *reporter,
                            done,
                            head + all_task_lines(done),
                            seq![task@],
                            task_lines(task@),
                        );
                        assert(all.take(k + 1) =~= done + seq![task@]);
                        assert(all.take(k + 1).drop_last() =~= done);
                        assert(head + all_task_lines(all.take(k + 1)) =~= head + all_task_lines(
                            done,
                        ) + task_lines(task@));
                    }
                }
                k = k + 1;
            }
            let ghost s2 = *reporter;
            reporter.systemd_footer();
            proof {
                if fs.reliable() {
                    assert(all.take(k as int) =~= all);
                    lemma_shows_more(
                        s0,
                        s2,
                        *reporter,
                        all,
                        head + all_task_lines(all),
                        e,
                        systemd_footer_lines(),
                    );
                    assert(all + e =~= all);
                }
            }
            Ok(())
        },
        Err(e) => Err(e),
    }
}

/// Write the hook files of a package manager. Unchanged files are left alone,
/// differing files require `force`.
pub fn write_pkgmgr_hooks<B: FileSystemBackend>(
    fs: &mut B,
    reporter: &mut InitReporter,
    args: &InitArgs,
) -> (r: Result<()>)
    ensures
        final(reporter).mode == old(reporter).mode,
        final(fs).reliable() == old(fs).reliable(),
        r is Ok ==> final(fs).state() == installed(
            old(fs).state(),
            path_of(args.pacman_dir@),
            hook_views(*args),
            1,
        ),
        r is Ok && old(fs).reliable() ==> shows(
            *old(reporter),
            *final(reporter),
            hook_tasks(old(fs).state(), *args),
            hook_lines(old(fs).state(), *args),
        ),
        r is Err ==> exists|k: nat|
            k <= 1 && final(fs).state() == #[trigger] installed(
                old(fs).state(),
                path_of(args.pacman_dir@),
                hook_views(*args),
                k,
            ),
        old(fs).reliable() ==> (r is Ok <==> (args.force || !in_the_way(
            old(fs).state(),
            path_of(args.pacman_dir@),
            hook_views(*args),
            0,
        ))),
{
    let pm = Pacman;
    let params = HookParams {
        bin_path: args.bin_path.clone(),
        config_path: args.output_path.clone(),
        strain: args.pacman_strain.clone(),
    };
    let hooks = pm.generate_hooks(&params);
    let mut files: Vec<NewFile> = Vec::new();
    files.push(NewFile { name: hooks[0].filename.clone(), content: hooks[0].content.clone() });
    assert(file_views(files@) =~= hook_views(*args));
    proof {
        reveal_strlit(".");
        reveal_strlit("50-revenant-snapshot.hook");
        assert(plain_names(hook_views(*args)));
    }
    let dir = FsPath::new(args.pacman_dir.as_str());
    let ghost st = fs.state();
    let ghost s0 = *reporter;
    reporter.pkgmgr_header(pm.name(), args.pacman_dir.as_str());
    match install_files(fs, &dir, &files, args.force, "hook file") {
        Ok(v) => {
            let ghost s1 = *reporter;
            let task = InitTask::WrotePkgmgrHook {
                pm: pm.name().to_owned(),
                name: files[0].name.clone(),
                status: v[0],
            };
            reporter.task(task);
            let ghost s2 = *reporter;
            reporter.pkgmgr_footer(pm.name());
            proof {
                if fs.reliable() {
                    let e = Seq::<TaskView>::empty();
                    let head = seq!["\nWriting "@ + "pacman"@ + " hook to "@ + args.pacman_dir@
                        + "/"@];
                    let t = seq![task@];
                    let l = task_lines(task@);
                    assert(file_views(files@)[0].0 == files@[0].name@);
                    lemma_shows_more(s0, s1, s2, e, head, t, l);
                    lemma_shows_more(
                        s0,
                        s2,
                        *reporter,
                        e + t,
                        head + l,
                        e,
                        pkgmgr_footer_lines("pacman"@),
                    );
                    assert(e + t + e =~= hook_tasks(st, *args));
                    assert(hook_tasks(st, *args) =~= t);
                    lemma_one_task(task@);
                }
            }
            Ok(())
        },
        Err(e) => Err(e),
    }
}

/// How `init` goes about the configuration.
#[derive(Debug, Clone, Copy, PartialEq, Eq, Structural)]
pub enum InitMode {
    /// Detect the system and write a new configuration.
    Fresh,
    /// Add missing strains to the configuration that is there.
    Extend,
    /// Leave the configuration that is there alone and fail.
    Refuse,
}

/// How `init` goes about the configuration: one that is there is never
/// regenerated, and strains are only added to it where a hook needs them.
pub fn init_mode(config_exists: bool, systemd: bool, pacman: bool) -> (r: InitMode)
    ensures
        r == mode_for(config_exists, systemd, pacman),
{
    if !config_exists {
        InitMode::Fresh
    } else if systemd || pacman {
        InitMode::Extend
    } else {
        InitMode::Refuse
    }
}

/// How `init` goes about the configuration.
pub open spec fn mode_for(config_exists: bool, systemd: bool, pacman: bool) -> InitMode {
    if !config_exists {
        InitMode::Fresh
    } else if systemd || pacman {
        InitMode::Extend
    } else {
        InitMode::Refuse
    }
}

/// The step that reports a detected system.
pub open spec fn detected_task(d: DetectedConfig) -> TaskView {
    TaskView::DetectedSystem {
        backend: d.backend@,
        device_uuid: d.device_uuid@,
        rootfs_subvol: d.rootfs_subvol@,
        snapshot_subvol: "@snapshots"@,
        efi_mount: match d.efi {
            Some(e) => Some(e.mount_point@),
            None => None,
        },
        bootloader: opt_view(d.bootloader),
    }
}

/// The steps on a new configuration.
pub open spec fn fresh_tasks(d: DetectedConfig, args: InitArgs) -> Seq<TaskView> {
    seq![detected_task(d)] + extension_tasks(built_config(d), args) + seq![
        TaskView::WroteConfig { path: args.output_path@, created: true },
    ]
}

/// The steps on a configuration that is there.
pub open spec fn extend_tasks(c: ConfigView, args: InitArgs) -> Seq<TaskView> {
    let added = extension_tasks(c, args);
    if added.len() > 0 {
        added + seq![TaskView::WroteConfig { path: args.output_path@, created: false }]
    } else {
        added
    }
}

/// Detect the system, build a configuration for it with the strains that the
/// requested hooks need, and write it.
pub fn write_fresh_config<B: FileSystemBackend>(
    fs: &mut B,
    reporter: &mut InitReporter,
    args: &InitArgs,
    detected: DetectedConfig,
) -> (r: Result<()>)
    ensures
        final(reporter).mode == old(reporter).mode,
        final(fs).reliable() == old(fs).reliable(),
        r is Ok ==> final(fs).state() == config_written(
            old(fs).state(),
            path_of(args.output_path@),
            extended(built_config(detected), *args),
        ) && shows(
            *old(reporter),
            *final(reporter),
            fresh_tasks(detected, *args),
            all_task_lines(fresh_tasks(detected, *args)),
        ),
        r is Err ==> final(fs).state() == old(fs).state(),
        old(fs).reliable() ==> (r is Ok <==> config_fits(extended(built_config(detected), *args))
            && toml_text(encode_config(extended(built_config(detected), *args))) is Ok),
        writable(extended(built_config(detected), *args)) ==> {
            &&& old(fs).reliable() ==> r is Ok
            &&& r is Ok ==> reads_as(
                final(fs).state().files[path_of(args.output_path@)],
                extended(built_config(detected), *args),
            )
        },
{
    let ghost s0 = *reporter;
    let efi_mount: Option<String> = match &detected.efi {
        Some(e) => Some(e.mount_point.clone()),
        None => None,
    };
    let bootloader: Option<String> = match &detected.bootloader {
        Some(b) => Some(b.clone()),
        None => None,
    };
    let first = InitTask::DetectedSystem {
        backend: detected.backend.clone(),
        device_uuid: detected.device_uuid.clone(),
        rootfs_subvol: detected.rootfs_subvol.clone(),
        snapshot_subvol: "@snapshots".to_owned(),
        efi_mount,
        bootloader,
    };
    let ghost d = detected;
    let ghost t1 = seq![first@];
    assert(first@ == detected_task(d));
    reporter.task(first);
    let ghost s1 = *reporter;
    let mut config = build_config(detected);
    let _ = extend_config(reporter, &mut config, args);
    let ghost s2 = *reporter;
    let path = FsPath::new(args.output_path.as_str());
    match write_config_to(fs, &config, &path) {
        Ok(_) => {},
        Err(e) => {
            return Err(e);
        },
    }
    let last = InitTask::WroteConfig { path: args.output_path.clone(), created: true };
    reporter.task(last);
    proof {
        let t2 = extension_tasks(built_config(d), *args);
        let t3 = seq![last@];
        lemma_one_task(t1[0]);
        lemma_one_task(last@);
        lemma_task_lines_concat(t1, t2);
        lemma_task_lines_concat(t1 + t2, t3);
        lemma_shows_more(s0, s1, s2, t1, all_task_lines(t1), t2, all_task_lines(t2));
        lemma_shows_more(
            s0,
            s2,
            *reporter,
            t1 + t2,
            all_task_lines(t1 + t2),
            t3,
            all_task_lines(t3),
        );
    }
    Ok(())
}

/// Add the strains that the requested hooks need to the configuration that is
/// there. Where none is missing, nothing is written.
pub fn extend_existing_config<B: FileSystemBackend>(
    fs: &mut B,
    reporter: &mut InitReporter,
    args: &InitArgs,
) -> (r: Result<()>)
    ensures
        final(reporter).mode == old(reporter).mode,
        final(fs).reliable() == old(fs).reliable(),
        r is Err ==> final(fs).state() == old(fs).state(),
        r is Ok ==> {
            let path = path_of(args.output_path@);
            let doc = toml_document(old(fs).state().files[path]);
            &&& old(fs).state().files.contains_key(path)
            &&& doc is Ok && decode_config(doc->Ok_0) is Some
            &&& {
                let c = decode_config(doc->Ok_0)->0;
                &&& config_fault(c) is None
                &&& final(fs).state() == if extension_tasks(c, *args).len() > 0 {
                    config_written(old(fs).state(), path, extended(c, *args))
                } else {
                    old(fs).state()
                }
                &&& shows(
                    *old(reporter),
                    *final(reporter),
                    extend_tasks(c, *args),
                    all_task_lines(extend_tasks(c, *args)),
                )
            }
        },
        ({
            let path = path_of(args.output_path@);
            let doc = toml_document(old(fs).state().files[path]);
            let c = decode_config(doc->Ok_0)->0;
            let valid = doc is Ok && decode_config(doc->Ok_0) is Some && config_fault(c) is None;
            old(fs).reliable() && old(fs).state().files.contains_key(path) ==> {
                &&& valid && (extension_tasks(c, *args).len() == 0 || (config_fits(
                    extended(c, *args),
                ) && toml_text(encode_config(extended(c, *args))) is Ok)) ==> r is Ok
                &&& valid && writable(extended(c, *args)) ==> r is Ok
                &&& !valid ==> r is Err && refuses(old(fs).state().files[path], r->Err_0@)
            }
        }),
{
    let ghost s0 = *reporter;
    let path = FsPath::new(args.output_path.as_str());
    let mut config = match Config::load(fs, &path) {
        Ok(c) => c,
        Err(e) => {
            return Err(e);
        },
    };
    let ghost c = config@;
    if !extend_config(reporter, &mut config, args) {
        return Ok(());
    }
    let ghost s1 = *reporter;
    match write_config_to(fs, &config, &path) {
        Ok(_) => {},
        Err(e) => {
            return Err(e);
        },
    }
    let last = InitTask::WroteConfig { path: args.output_path.clone(), created: false };
    reporter.task(last);
    proof {
        let t1 = extension_tasks(c, *args);
        let t2 = seq![last@];
        lemma_one_task(last@);
        lemma_task_lines_concat(t1, t2);
        lemma_shows_more(s0, s1, *reporter, t1, all_task_lines(t1), t2, all_task_lines(t2));
    }
    Ok(())
}

proof fn lemma_strains_fault_push(
    sys: SysView,
    s: Seq<(Seq<char>, StrainView)>,
    x: (Seq<char>, StrainView),
)
    requires
        strains_fault(sys, s) is None,
        strain_fault(sys, x.0, x.1) is None,
    ensures
        strains_fault(sys, s.push(x)) is None,
    decreases s.len(),
{
    if s.len() == 0 {
        assert(s.push(x).skip(1) =~= Seq::empty());
        assert(strains_fault(sys, s.push(x).skip(1)) is None);
    } else {
        lemma_strains_fault_push(sys, s.skip(1), x);
        assert(s.push(x).skip(1) =~= s.skip(1).push(x));
    }
}

proof fn lemma_ensured_writable(c: ConfigView, name: Seq<char>, retain: RetainConfig)
    requires
        writable(c),
        valid_strain_name(name),
        retain.last > 0,
        retain_fits(retain),
    ensures
        writable(ensured(c, name, retain)),
{
    if lookup(c.strain, name) is None {
        lemma_strains_fault_push(c.sys, c.strain, (name, hook_strain(c, retain)));
    }
}

/// Adding the strains that hooks need keeps a configuration valid, and able to
/// be written and read back.
pub proof fn law_extended_config_is_writable(c: ConfigView, args: InitArgs)
    requires
        writable(c),
        args.systemd ==> valid_strain_name(args.boot_strain@) && valid_strain_name(
            args.periodic_strain@,
        ),
        args.pacman ==> valid_strain_name(args.pacman_strain@),
    ensures
        writable(extended(c, args)),
{
    if args.systemd {
        lemma_ensured_writable(c, args.boot_strain@, boot_retain());
        lemma_ensured_writable(
            ensured(c, args.boot_strain@, boot_retain()),
            args.periodic_strain@,
            periodic_retain(),
        );
    }
    if args.pacman {
        lemma_ensured_writable(
            extended(c, (InitArgs { pacman: false, ..args })),
            args.pacman_strain@,
            pacman_retain(),
        );
    }
}

/// The state after the requested hook files were put in place.
pub open spec fn hooked(st: FsState, args: InitArgs) -> FsState {
    let a = if args.systemd {
        installed(st, path_of(args.systemd_dir@), unit_views(args), 3)
    } else {
        st
    };
    if args.pacman {
        installed(a, path_of(args.pacman_dir@), hook_views(args), 1)
    } else {
        a
    }
}

/// The configuration that a run of `init` starts from.
pub open spec fn base_config(st: FsState, args: InitArgs, d: DetectedConfig) -> ConfigView {
    let path = path_of(args.output_path@);
    if st.files.contains_key(path) {
        decode_config(toml_document(st.files[path])->Ok_0)->0
    } else {
        built_config(d)
    }
}

/// The state after the configuration was seen to.
pub open spec fn configured(st: FsState, args: InitArgs, d: DetectedConfig) -> FsState {
    let path = path_of(args.output_path@);
    let c = base_config(st, args, d);
    if st.files.contains_key(path) && extension_tasks(c, args).len() == 0 {
        st
    } else {
        config_written(st, path, extended(c, args))
    }
}

/// The steps of a run of `init`.
pub open spec fn init_tasks(st: FsState, args: InitArgs, d: DetectedConfig) -> Seq<TaskView> {
    let s1 = configured(st, args, d);
    let s2 = hooked(s1, (InitArgs { pacman: false, ..args }));
    (if st.files.contains_key(path_of(args.output_path@)) {
        extend_tasks(base_config(st, args, d), args)
    } else {
        fresh_tasks(d, args)
    }) + (if args.systemd {
        unit_tasks(s1, args)
    } else {
        Seq::empty()
    }) + (if args.pacman {
        hook_tasks(s2, args)
    } else {
        Seq::empty()
    })
}

/// The lines that report a run of `init`.
pub open spec fn init_lines(st: FsState, args: InitArgs, d: DetectedConfig) -> Seq<Seq<char>> {
    let s1 = configured(st, args, d);
    let s2 = hooked(s1, (InitArgs { pacman: false, ..args }));
    all_task_lines(
        if st.files.contains_key(path_of(args.output_path@)) {
            extend_tasks(base_config(st, args, d), args)
        } else {
            fresh_tasks(d, args)
        },
    ) + (if args.systemd {
        unit_lines(s1, args)
    } else {
        Seq::empty()
    }) + (if args.pacman {
        hook_lines(s2, args)
    } else {
        Seq::empty()
    })
}

/// Whether `d` is what `probe` tells of the system.
pub open spec fn probed(probe: SystemProbe, d: DetectedConfig) -> bool {
    is_detected(probe.mountinfo@, opt_view(probe.device_uuid), views(probe.existing@), d)
}

/// Whether a configuration can be seen to: the one that is there is valid, and
/// what has to be written can be.
pub open spec fn configurable(st: FsState, args: InitArgs, d: DetectedConfig) -> bool {
    let path = path_of(args.output_path@);
    let c = base_config(st, args, d);
    &&& st.files.contains_key(path) ==> {
        &&& args.systemd || args.pacman
        &&& toml_document(st.files[path]) is Ok
        &&& decode_config(toml_document(st.files[path])->Ok_0) is Some
        &&& config_fault(c) is None
    }
    &&& config_fits(extended(c, args))
    &&& toml_text(encode_config(extended(c, args))) is Ok
}

/// Whether no hook file is in the way of one to be written, or all may be
/// overwritten.
pub open spec fn unobstructed(st: FsState, args: InitArgs) -> bool {
    let s2 = hooked(st, (InitArgs { pacman: false, ..args }));
    args.force || {
        &&& args.systemd ==> forall|i: int|
            0 <= i < 3 ==> !#[trigger] in_the_way(
                st,
                path_of(args.systemd_dir@),
                unit_views(args),
                i,
            )
        &&& args.pacman ==> !in_the_way(s2, path_of(args.pacman_dir@), hook_views(args), 0)
    }
}

/// The state after the first `units` unit files and the first `hooks` hook
/// files were put in place.
pub open spec fn partly_hooked(st: FsState, args: InitArgs, units: nat, hooks: nat) -> FsState {
    installed(
        installed(st, path_of(args.systemd_dir@), unit_views(args), units),
        path_of(args.pacman_dir@),
        hook_views(args),
        hooks,
    )
}

/// Whether `b` is what a run of `init` may leave of `a`, whatever failed: the
/// configuration is as it was or seen to, and only then are files of the
/// requested hooks put in place, one after the other.
pub open spec fn init_left(a: FsState, b: FsState, args: InitArgs, probe: SystemProbe) -> bool {
    b == a || exists|d: DetectedConfig, units: nat, hooks: nat|
        {
            &&& a.files.contains_key(path_of(args.output_path@)) || probed(probe, d)
            &&& units <= 3 && (!args.systemd ==> units == 0)
            &&& hooks <= 1 && (!args.pacman ==> hooks == 0)
            &&& hooks > 0 && args.systemd ==> units == 3
            &&& b == #[trigger] partly_hooked(configured(a, args, d), args, units, hooks)
        }
}

/// Run `init`: see to the configuration, then to the requested hook files.
/// `probe` is what can be told of the system.
pub fn cmd_init<B: FileSystemBackend>(
    fs: &mut B,
    reporter: &mut InitReporter,
    args: &InitArgs,
    probe: &SystemProbe,
) -> (r: Result<()>)
    ensures
        final(reporter).mode == old(reporter).mode,
        final(fs).reliable() == old(fs).reliable(),
        old(fs).reliable() && old(fs).state().files.contains_key(path_of(args.output_path@))
            && !args.systemd && !args.pacman ==> (r matches Err(e) && e@ == ErrorView::Other(
            "configuration file already exists: "@ + args.output_path@
                + "\nRemove it first to regenerate it."@,
        ) && final(fs).state() == old(fs).state()),
        old(fs).reliable() && !old(fs).state().files.contains_key(path_of(args.output_path@)) ==> (
        detection_fault(probe.mountinfo@, opt_view(probe.device_uuid)) matches Some(f) ==> (
        r matches Err(e) && e@ == f && final(fs).state() == old(fs).state())),
        init_left(old(fs).state(), final(fs).state(), *args, *probe),
        r is Ok ==> exists|d: DetectedConfig|
            {
                &&& old(fs).state().files.contains_key(path_of(args.output_path@)) || probed(
                    *probe,
                    d,
                )
                &&& final(fs).state() == hooked(
                    #[trigger] configured(old(fs).state(), *args, d),
                    *args,
                )
                &&& old(fs).reliable() ==> shows(
                    *old(reporter),
                    *final(reporter),
                    init_tasks(old(fs).state(), *args, d),
                    init_lines(old(fs).state(), *args, d),
                )
                &&& old(fs).reliable() ==> unobstructed(
                    configured(old(fs).state(), *args, d),
                    *args,
                )
            },
        old(fs).reliable() && (old(fs).state().files.contains_key(path_of(args.output_path@))
            || detection_fault(probe.mountinfo@, opt_view(probe.device_uuid)) is None) && (forall|
            d: DetectedConfig,
        |
            old(fs).state().files.contains_key(path_of(args.output_path@)) || probed(*probe, d)
                ==> #[trigger] configurable(old(fs).state(), *args, d) && unobstructed(
                configured(old(fs).state(), *args, d),
                *args,
            )) ==> r is Ok,
{
    let ghost st = fs.state();
    let ghost r0 = *reporter;
    let path = FsPath::new(args.output_path.as_str());
    let exists_already = match fs.read_file(&path) {
        Ok(found) => found.is_some(),
        Err(_) => true,
    };
    let ghost mut d: DetectedConfig = arbitrary();
    match init_mode(exists_already, args.systemd, args.pacman) {
        InitMode::Fresh => {
            let uuid: Option<&str> = match &probe.device_uuid {
                Some(u) => Some(u.as_str()),
                None => None,
            };
            let detected = match detect_all(probe.mountinfo.as_str(), uuid, &probe.existing) {
                Ok(v) => v,
                Err(e) => {
                    return Err(e);
                },
            };
            proof {
                d = detected;
                assert(probed(*probe, d));
                let _ = configurable(st, *args, d);
            }
            match write_fresh_config(fs, reporter, args, detected) {
                Ok(_) => {},
                Err(e) => {
                    return Err(e);
                },
            }
        },
        InitMode::Extend => {
            proof {
                let _ = configurable(st, *args, d);
            }
            match extend_existing_config(fs, reporter, args) {
                Ok(_) => {},
                Err(e) => {
                    return Err(e);
                },
            }
        },
        InitMode::Refuse => {
            proof {
                let _ = configurable(st, *args, d);
            }
            return Err(
                RevenantError::Other(
                    cat3(
                        "configuration file already exists: ",
                        args.output_path.as_str(),
                        "\nRemove it first to regenerate it.",
                    ),
                ),
            );
        },
    }
    let ghost s1 = fs.state();
    let ghost r1 = *reporter;
    let ghost t1 = if st.files.contains_key(path_of(args.output_path@)) {
        extend_tasks(base_config(st, *args, d), *args)
    } else {
        fresh_tasks(d, *args)
    };
    assert(s1 == configured(st, *args, d));
    proof {
        assert(partly_hooked(s1, *args, 0, 0) == s1);
    }
    assert(fs.reliable() ==> shows(r0, r1, t1, all_task_lines(t1)));
    if args.systemd {
        match write_systemd_units(fs, reporter, args) {
            Ok(_) => {},
            Err(e) => {
                proof {
                    let k = choose|k: nat|
                        k <= 3 && fs.state() == #[trigger] installed(
                            s1,
                            path_of(args.systemd_dir@),
                            unit_views(*args),
                            k,
                        );
                    assert(fs.state() == partly_hooked(configured(st, *args, d), *args, k, 0));
                }
                return Err(e);
            },
        }
    }
    let ghost s2 = fs.state();
    let ghost r2 = *reporter;
    let ghost t2 = if args.systemd {
        unit_tasks(s1, *args)
    } else {
        Seq::empty()
    };
    let ghost l2 = if args.systemd {
        unit_lines(s1, *args)
    } else {
        Seq::empty()
    };
    proof {
        lemma_shows_nothing(r1);
        assert(s2 == hooked(s1, (InitArgs { pacman: false, ..*args })));
        if fs.reliable() {
            lemma_shows_more(r0, r1, r2, t1, all_task_lines(t1), t2, l2);
        }
    }
    if args.pacman {
        match write_pkgmgr_hooks(fs, reporter, args) {
            Ok(_) => {},
            Err(e) => {
                proof {
                    let k = choose|k: nat|
                        k <= 1 && fs.state() == #[trigger] installed(
                            s2,
                            path_of(args.pacman_dir@),
                            hook_views(*args),
                            k,
                        );
                    let units: nat = if args.systemd {
                        3
                    } else {
                        0
                    };
                    assert(fs.state() == partly_hooked(configured(st, *args, d), *args, units, k));
                }
                return Err(e);
            },
        }
    }
    let r: Result<()> = Ok(());
    proof {
        let t3 = if args.pacman {
            hook_tasks(s2, *args)
        } else {
            Seq::empty()
        };
        let l3 = if args.pacman {
            hook_lines(s2, *args)
        } else {
            Seq::empty()
        };
        lemma_shows_nothing(r2);
        if fs.reliable() {
            lemma_shows_more(r0, r2, *reporter, t1 + t2, all_task_lines(t1) + l2, t3, l3);
        }
        assert(fs.state() == hooked(configured(st, *args, d), *args));
        let units: nat = if args.systemd {
            3
        } else {
            0
        };
        let hooks: nat = if args.pacman {
            1
        } else {
            0
        };
        assert(fs.state() == partly_hooked(configured(st, *args, d), *args, units, hooks));
    }
    r
}

} // verus!
