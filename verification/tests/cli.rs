use revenant::backend::mock::MockBackend;
use revenant::backend::FileSystemBackend;
use revenant::check::Finding;
use revenant::cleanup::CleanupSummary;
use revenant::cli::args::{
    build_trigger, log_filter, message_items_of, OutputMode, TriggerKindArg,
};
use revenant::cli::commands::{
    check_failed, cmd_cleanup, cmd_cleanup_at, cmd_cleanup_plan_at, cmd_delete, cmd_edit, cmd_list,
    cmd_restore, cmd_restore_at, cmd_snapshot, cmd_snapshot_at, edit_patch, restore_gate,
    scan_system, RestoreGate,
};
use revenant::cli::output::{
    metadata_summary, print_cleanup_result, print_delete_result, print_findings,
    print_restore_success, print_snapshot_created, print_snapshot_list, summarize_findings,
    truncate,
};
use revenant::cli::setup::{cmd_init, init_mode, InitArgs, InitMode, InitReporter, SystemProbe};
use revenant::clock::{Moment, WallTime};
use revenant::config::Config;
use revenant::metadata::{SnapshotMetadata, TriggerKind};
use revenant::path::FsPath;
use revenant::snapshot::{LiveParentRef, SnapshotId, SnapshotInfo, SnapshotTarget};

fn top() -> FsPath {
    FsPath::new("/top")
}

fn config(last: usize) -> Config {
    format!(
        r#"
[sys]
rootfs_subvol = "@"
snapshot_subvol = "@snapshots"

[sys.rootfs]
backend = "btrfs"
device_uuid = "12345678-1234-1234-1234-123456789abc"

[sys.efi]
enabled = false

[sys.bootloader]
backend = "systemd-boot"

[strain.default]
subvolumes = ["@"]

[strain.default.retain]
last = {}
"#,
        last
    )
    .parse()
    .unwrap()
}

fn system() -> MockBackend {
    let mut mock = MockBackend::new();
    mock.seed_subvolume(&top().join("@"));
    mock.seed_subvolume(&top().join("@snapshots"));
    mock
}

fn sample_snapshot(id: &str, strain: &str) -> SnapshotInfo {
    SnapshotInfo {
        id: SnapshotId::from_string(id).unwrap(),
        strain: strain.to_string(),
        subvolumes: vec!["@".to_string()],
        efi_synced: false,
        metadata: None,
    }
}

fn texts(v: &[&str]) -> Vec<String> {
    v.iter().map(|s| s.to_string()).collect()
}

#[test]
fn metadata_summary_manual_with_message() {
    let meta = SnapshotMetadata::new(TriggerKind::Manual, texts(&["pre-upgrade"]));
    let s = metadata_summary(&meta);
    assert!(s.starts_with("manual"));
    assert!(s.contains("pre-upgrade"));
}

#[test]
fn metadata_summary_pacman_truncates_long_target_list() {
    let meta = SnapshotMetadata::new(TriggerKind::Pacman, texts(&["a", "b", "c", "d", "e"]));
    let s = metadata_summary(&meta);
    assert!(s.contains("pacman"));
    assert!(s.contains("a, b, +3"));
}

#[test]
fn metadata_summary_systemd_shows_unit() {
    let meta =
        SnapshotMetadata::new(TriggerKind::SystemdBoot, texts(&["revenant-boot.service"]));
    let s = metadata_summary(&meta);
    assert!(s.contains("systemd-boot"));
    assert!(s.contains("revenant-boot.service"));
}

#[test]
fn truncate_longer_than_max() {
    assert_eq!(truncate("hello", 3), "he…");
    assert_eq!(truncate("hi", 3), "hi");
}

#[test]
fn findings_are_counted_and_printed() {
    let findings = vec![
        Finding::error("config-missing", "nope".to_string()),
        Finding::warning("orphaned-snapshot", "stale".to_string()),
        Finding::info("nested-subvolumes", "just fyi".to_string()),
        Finding::warning("orphaned-snapshot", "another".to_string()),
    ];
    let s = summarize_findings(&findings);
    assert_eq!((s.errors, s.warnings, s.infos), (1, 2, 1));
    assert!(check_failed(&findings));
    assert!(!check_failed(&vec![]));
    let lines = print_findings(&findings).join("\n");
    assert!(lines.contains("nope") && lines.contains("another"), "{}", lines);
}

#[test]
fn the_live_parent_is_marked() {
    let snaps = vec![
        sample_snapshot("20260411-080000", "default"),
        sample_snapshot("20260412-080000", "default"),
    ];
    let live = LiveParentRef {
        id: SnapshotId::from_string("20260412-080000").unwrap(),
        strain: "default".to_string(),
    };
    let lines = print_snapshot_list(&snaps, Some(&live));
    assert_eq!(lines.len(), 4);
    assert!(lines[2].starts_with("  20260411-080000"), "{}", lines[2]);
    assert!(lines[3].starts_with("* 20260412-080000"), "{}", lines[3]);
}

#[test]
fn results_are_reported() {
    let none = CleanupSummary { removed: vec![], removed_sidecars: vec![] };
    assert_eq!(print_cleanup_result(&none), vec!["No snapshots to clean up."]);
    let some = CleanupSummary {
        removed: texts(&["20260411-080000"]),
        removed_sidecars: vec![],
    };
    assert_eq!(
        print_cleanup_result(&some),
        vec!["Removed: 20260411-080000", "Cleaned up 1 snapshot(s)."]
    );
    assert_eq!(
        print_snapshot_created(&sample_snapshot("20260411-080000", "default"), &vec![]),
        vec!["Snapshot created: 20260411-080000 (strain: default)"]
    );
    assert_eq!(
        print_delete_result("default", &texts(&["20260411-080000"]), true),
        vec!["Snapshot 20260411-080000 deleted."]
    );
    assert_eq!(
        print_delete_result("default", &vec![], false),
        vec!["No snapshots found for strain 'default'."]
    );
    assert!(!print_restore_success(None).is_empty());
}

#[test]
fn arguments_are_read() {
    assert!(OutputMode::Json.is_json());
    assert!(!OutputMode::Text.is_json());
    assert_eq!(build_trigger(None), TriggerKind::Manual);
    assert_eq!(build_trigger(Some(TriggerKindArg::Pacman)), TriggerKind::Pacman);
    assert_eq!(
        message_items_of(texts(&["note"]), &texts(&["linux", "", " mesa "])),
        texts(&["note", "linux", "mesa"])
    );
    assert!(log_filter(0) != log_filter(2));
}

#[test]
fn a_snapshot_command_applies_retention() {
    let config = config(1);
    let mut mock = system();
    mock.seed_subvolume(&top().join("@snapshots/@-default-20260101-000000"));
    let out = cmd_snapshot(
        &config,
        &mut mock,
        &top(),
        "default",
        TriggerKind::Manual,
        texts(&["m"]),
        false,
    )
    .unwrap();
    assert_eq!(out.created.strain, "default");
    assert_eq!(out.retention_removed, texts(&["20260101-000000"]));
    assert!(!mock.contains(&top().join("@snapshots/@-default-20260101-000000")));
    assert!(mock.contains(&top().join("@snapshots").join(&out.created.id.snapshot_name("@", "default"))));
}

#[test]
fn a_protected_snapshot_is_not_deleted() {
    let config = config(5);
    let mut mock = system();
    let out = cmd_snapshot(
        &config,
        &mut mock,
        &top(),
        "default",
        TriggerKind::Manual,
        vec![],
        true,
    )
    .unwrap();
    let target: SnapshotTarget = out.created.id.as_str().parse().unwrap();
    assert!(cmd_delete(&config, &mut mock, &top(), &target).is_err());
    let patch = edit_patch(Some(texts(&["new note"])), false, true);
    let edited = cmd_edit(&config, &mut mock, &top(), &target, &patch).unwrap();
    let meta = edited.metadata.unwrap();
    assert!(!meta.protected);
    assert_eq!(meta.message, texts(&["new note"]));
    let gone = cmd_delete(&config, &mut mock, &top(), &target).unwrap();
    assert!(gone.single);
    assert_eq!(gone.deleted.len(), 1);
    assert!(cmd_list(&config, &mock, &top(), None).unwrap().snapshots.is_empty());
}

#[test]
fn a_listing_can_be_narrowed() {
    let config = config(5);
    let mut mock = system();
    mock.seed_subvolume(&top().join("@snapshots/@-default-20260101-000000"));
    mock.seed_subvolume(&top().join("@snapshots/@-default-20260102-000000"));
    let one: SnapshotTarget = "default@20260102-000000".parse().unwrap();
    let listed = cmd_list(&config, &mock, &top(), Some(&one)).unwrap();
    assert_eq!(listed.snapshots.len(), 1);
    assert_eq!(listed.snapshots[0].id.as_str(), "20260102-000000");
    let all: SnapshotTarget = "default@".parse().unwrap();
    assert_eq!(cmd_list(&config, &mock, &top(), Some(&all)).unwrap().snapshots.len(), 2);
}

#[test]
fn a_restore_asks_for_confirmation() {
    let config = config(5);
    let mut mock = system();
    mock.seed_subvolume(&top().join("@snapshots/@-default-20260101-000000"));
    let target: SnapshotTarget = "default@20260101-000000".parse().unwrap();
    let before = mock.all_paths();

    let asked =
        cmd_restore(&config, &mut mock, &top(), &target, &vec![], false, false, false).unwrap();
    assert_eq!(asked.gate, RestoreGate::Unconfirmed);
    assert_eq!(mock.all_paths(), before);

    let machines = texts(&["web"]);
    let blocked =
        cmd_restore(&config, &mut mock, &top(), &target, &machines, true, false, false).unwrap();
    assert_eq!(blocked.gate, RestoreGate::Blocked);
    assert_eq!(mock.all_paths(), before);

    let done =
        cmd_restore(&config, &mut mock, &top(), &target, &machines, true, true, true).unwrap();
    assert_eq!(done.gate, RestoreGate::Proceed);
    assert!(done.pre_restore.is_some());
    let listed = cmd_list(&config, &mock, &top(), None).unwrap();
    let live = listed.live_parent.unwrap();
    assert_eq!(live.id.as_str(), "20260101-000000");

    let swept = cmd_cleanup(&config, &mut mock, &top(), true).unwrap();
    assert!(swept.summary.removed.iter().any(|n| n.starts_with("@-DELETE-")));
}

#[test]
fn confirmation_and_force_do_not_stand_in_for_each_other() {
    let bad = vec![Finding::error("c", "m".to_string())];
    assert_eq!(restore_gate(&bad, true, false), RestoreGate::Blocked);
    assert_eq!(restore_gate(&bad, false, true), RestoreGate::Unconfirmed);
    assert_eq!(restore_gate(&bad, true, true), RestoreGate::Proceed);
    assert_eq!(restore_gate(&vec![], true, false), RestoreGate::Proceed);
}

#[test]
fn a_scan_gathers_all_checks() {
    let config = config(5);
    let mut mock = system();
    assert!(scan_system(&config, &mock, &top()).is_empty());
    mock.seed_subvolume(&top().join("@snapshots/@-gone-20260101-000000"));
    mock.write_file(&top().join("@snapshots/default-20260105-000000.meta.toml"), "x = 1").unwrap();
    mock.seed_subvolume(&top().join("@/var/lib/machines"));
    let checks: Vec<&str> = scan_system(&config, &mock, &top()).iter().map(|f| f.check).collect();
    assert_eq!(checks, vec!["orphaned-snapshot", "orphaned-sidecar", "nested-subvolumes"]);
}

fn init_args(systemd: bool, pacman: bool) -> InitArgs {
    InitArgs {
        output_path: "/etc/revenant/config.toml".to_string(),
        force: false,
        systemd,
        systemd_dir: "/etc/systemd/system".to_string(),
        bin_path: "/usr/bin/revenantctl".to_string(),
        timer_interval: "hourly".to_string(),
        periodic_strain: "periodic".to_string(),
        boot_strain: "boot".to_string(),
        pacman,
        pacman_dir: "/etc/pacman.d/hooks".to_string(),
        pacman_strain: "pacman".to_string(),
    }
}

fn probe() -> SystemProbe {
    SystemProbe {
        mountinfo: "22 1 259:2 /@ / rw - btrfs /dev/nvme0n1p2 rw,subvolid=256,subvol=/@\n"
            .to_string(),
        device_uuid: Some("12345678-1234-1234-1234-123456789abc".to_string()),
        existing: vec![],
    }
}

#[test]
fn init_writes_a_configuration_that_loads() {
    let mut mock = MockBackend::new();
    let mut reporter = InitReporter::new(OutputMode::Json);
    cmd_init(&mut mock, &mut reporter, &init_args(true, true), &probe()).unwrap();
    let path = FsPath::new("/etc/revenant/config.toml");
    let config = Config::load(&mock, &path).unwrap();
    assert!(config.strain.contains_key("default"));
    assert!(config.strain.contains_key("boot"));
    assert!(config.strain.contains_key("periodic"));
    assert!(config.strain.contains_key("pacman"));
    assert!(mock
        .read_file(&FsPath::new("/etc/systemd/system/revenant-boot.service"))
        .unwrap()
        .is_some());
    assert!(mock
        .read_file(&FsPath::new("/etc/pacman.d/hooks/50-revenant-snapshot.hook"))
        .unwrap()
        .is_some());
    assert!(reporter.finish().is_some());
}

#[test]
fn init_leaves_an_existing_configuration_alone() {
    let mut mock = MockBackend::new();
    let path = FsPath::new("/etc/revenant/config.toml");
    mock.write_file(&path, "kept").unwrap();
    let mut reporter = InitReporter::new(OutputMode::Text);
    assert!(cmd_init(&mut mock, &mut reporter, &init_args(false, false), &probe()).is_err());
    assert_eq!(mock.read_file(&path).unwrap(), Some("kept".to_string()));
    assert!(init_mode(false, false, false) == InitMode::Fresh);
}

#[test]
fn an_edit_names_one_snapshot_and_a_change() {
    let config = config(5);
    let mut mock = system();
    mock.seed_subvolume(&top().join("@snapshots/@-default-20260101-000000"));
    let one: SnapshotTarget = "default@20260101-000000".parse().unwrap();
    let all: SnapshotTarget = "default@".parse().unwrap();
    let none = edit_patch(None, false, false);
    let keep = edit_patch(None, true, false);
    assert_eq!(
        cmd_edit(&config, &mut mock, &top(), &one, &none).unwrap_err(),
        "nothing to edit — pass --message, --protect or --unprotect"
    );
    assert_eq!(
        cmd_edit(&config, &mut mock, &top(), &all, &keep).unwrap_err(),
        "'default@' names every snapshot of a strain — give a single snapshot"
    );
    // Without a sidecar there is nothing to edit.
    assert_eq!(
        cmd_edit(&config, &mut mock, &top(), &one, &keep).unwrap_err(),
        "failed to edit snapshot: snapshot default@20260101-000000 has no sidecar metadata to edit"
    );
    let gone: SnapshotTarget = "20250101-000000".parse().unwrap();
    assert!(cmd_edit(&config, &mut mock, &top(), &gone, &keep)
        .unwrap_err()
        .starts_with("failed to find snapshot: "));
}

#[test]
fn a_strain_is_deleted_but_for_what_is_protected() {
    let config = config(5);
    let mut mock = system();
    let kept = cmd_snapshot(
        &config,
        &mut mock,
        &top(),
        "default",
        TriggerKind::Manual,
        vec![],
        true,
    )
    .unwrap();
    mock.seed_subvolume(&top().join("@snapshots/@-default-20260101-000000"));
    let all: SnapshotTarget = "default@".parse().unwrap();
    let out = cmd_delete(&config, &mut mock, &top(), &all).unwrap();
    assert!(!out.single);
    assert_eq!(out.deleted, texts(&["20260101-000000"]));
    assert_eq!(out.skipped_protected, texts(&[kept.created.id.as_str()]));
    assert_eq!(cmd_list(&config, &mock, &top(), None).unwrap().snapshots.len(), 1);
}

#[test]
fn a_restore_of_all_of_a_strain_is_refused() {
    let config = config(5);
    let mut mock = system();
    let all: SnapshotTarget = "default@".parse().unwrap();
    let before = mock.all_paths();
    assert!(cmd_restore(&config, &mut mock, &top(), &all, &vec![], true, false, false).is_err());
    assert_eq!(mock.all_paths(), before);
}

fn moment(id: &str) -> Moment {
    SnapshotId::from_string(id).unwrap().created_at().unwrap()
}

#[test]
fn commands_go_by_the_times_given() {
    let config = config(1);
    let mut mock = system();
    mock.seed_subvolume(&top().join("@snapshots/@-default-20260101-000000"));
    mock.seed_subvolume(&top().join("@-DELETE-20260101-120000"));
    let now = moment("20260110-120000");
    let created_at = WallTime { secs: now.secs, nanos: 0, offset: 3600 };
    let out = cmd_snapshot_at(
        &config,
        &mut mock,
        &top(),
        "default",
        TriggerKind::Manual,
        texts(&["note"]),
        true,
        SnapshotId::from_string("20260110-120000-123").unwrap(),
        created_at,
        now,
    )
    .unwrap();
    assert_eq!(out.created.id.as_str(), "20260110-120000-123");
    let meta = out.created.metadata.unwrap();
    assert_eq!(meta.created_at.secs, now.secs);
    assert_eq!(meta.created_at.offset, 3600);
    assert!(meta.protected);
    // The marker is younger than two weeks, the old snapshot is one too many.
    assert_eq!(out.retention_removed, texts(&["20260101-000000"]));
    let plan = cmd_cleanup_plan_at(&config, &mock, &top(), false, moment("20260115-115959"));
    assert!(!plan.unwrap().tombstones[0].would_purge);
    let late = moment("20260115-120001");
    let plan = cmd_cleanup_plan_at(&config, &mock, &top(), false, late).unwrap();
    assert!(plan.tombstones[0].would_purge);
    let swept = cmd_cleanup_at(&config, &mut mock, &top(), false, late).unwrap();
    assert_eq!(swept.summary.removed, texts(&["@-DELETE-20260101-120000"]));
    let target: SnapshotTarget = "20260110-120000-123".parse().unwrap();
    let back = cmd_restore_at(
        &config,
        &mut mock,
        &top(),
        &target,
        &vec![],
        true,
        false,
        true,
        SnapshotId::from_string("20260116-000000-000").unwrap(),
        created_at,
        &SnapshotId::from_string("20260116-000001-000").unwrap(),
    )
    .unwrap();
    assert_eq!(back.pre_restore.unwrap().id.as_str(), "20260116-000000-000");
    assert!(mock.contains(&top().join("@-DELETE-20260116-000001-000")));
    assert!(mock.contains(&top().join("@snapshots/@-default-20260116-000000-000")));
    // An ID that is taken is not taken again.
    assert!(cmd_snapshot_at(
        &config,
        &mut mock,
        &top(),
        "default",
        TriggerKind::Manual,
        vec![],
        false,
        SnapshotId::from_string("20260116-000000-000").unwrap(),
        created_at,
        late,
    )
    .is_err());
}
