use revenant::backend::mock::MockBackend;
use revenant::backend::FileSystemBackend;
use revenant::clock::WallTime;
use revenant::config::{Config, RetainConfig};
use revenant::daemon::config_edit::{set_strain_retention_at, tmp_path, CONFIG_PATH};
use revenant::daemon::errors::{authorize, map_core_error, DaemonError};
use revenant::daemon::marshal::{Dict, WireValue};
use revenant::daemon::mount::{device_path, is_mount_point};
use revenant::daemon::service::{
    get_daemon_info, get_latest_strain, get_live_parent, get_snapshot, get_strain,
    list_delete_markers, list_snapshots, list_strains, parse_retain, purge_delete_markers,
    remove_snapshot, restore, restore_at, set_strain_retention, take_snapshot, take_snapshot_at,
    TierArg,
};
use revenant::daemon::snapshot_mount::{
    base_dir_for, is_revenant_user_mount_path, next_action, plan_mount, stale_mounts, ActiveMount,
    MountAction, MountRequest, SnapshotMountManager, Unmounted, IDLE_TIMEOUT_MS,
};
use revenant::daemon::state::{DaemonState, DegradedReason};
use revenant::daemon::watcher::{classify_event, Debounce, DEBOUNCE_MS};
use revenant::error::RevenantError;
use revenant::path::FsPath;
use revenant::snapshot::{
    discover_snapshots, update_snapshot_metadata, MetadataPatch, SnapshotId, SnapshotInfo,
};

fn top() -> FsPath {
    FsPath::new("/top")
}

fn config() -> Config {
    r#"
[sys]
rootfs_subvol = "@"
snapshot_subvol = "@snapshots"

[sys.rootfs]
backend = "btrfs"
device_uuid = "12345678-1234-1234-1234-123456789abc"

[sys.efi]
enabled = false

[sys.bootloader]
backend = "systemd-boot"

[strain.default]
subvolumes = ["@"]
display_name = "Everyday"
"#
    .parse()
    .unwrap()
}

fn system() -> MockBackend {
    let mut mock = MockBackend::new();
    mock.seed_subvolume(&top().join("@"));
    mock.seed_subvolume(&top().join("@snapshots"));
    mock
}

fn text(d: &Dict, key: &str) -> Option<String> {
    d.entries.iter().find(|e| e.key == key).and_then(|e| match &e.value {
        WireValue::Text(s) => Some(s.clone()),
        _ => None,
    })
}

fn snap(id: &str, strain: &str) -> SnapshotInfo {
    SnapshotInfo {
        id: SnapshotId::from_string(id).unwrap(),
        strain: strain.to_string(),
        subvolumes: vec!["@".to_string()],
        efi_synced: false,
        metadata: None,
    }
}

fn edited(content: &str, strain: &str, retain: &RetainConfig) -> Result<String, String> {
    let path = FsPath::new("/etc/c.toml");
    let mut mock = MockBackend::new();
    mock.write_file(&path, content).unwrap();
    set_strain_retention_at(&mut mock, &path, strain, retain)?;
    Ok(mock.read_file(&path).unwrap().unwrap())
}

#[test]
fn rewrites_existing_retain_table() {
    let content = r#"
[strain.default]
subvolumes = ["@"]

[strain.default.retain]
last = 3
daily = 7
"#;
    let retain =
        RetainConfig { last: 5, hourly: 24, daily: 0, weekly: 0, monthly: 0, yearly: 0 };
    let out = edited(content, "default", &retain).unwrap();
    assert!(out.contains("last = 5"));
    assert!(out.contains("hourly = 24"));
    // A count of zero removes the key.
    assert!(!out.contains("daily"));
}

#[test]
fn creates_retain_table_if_missing() {
    let content = r#"
[strain.boot]
subvolumes = ["@"]
efi = false
"#;
    let retain =
        RetainConfig { last: 10, hourly: 0, daily: 0, weekly: 0, monthly: 0, yearly: 0 };
    let out = edited(content, "boot", &retain).unwrap();
    assert!(out.contains("[strain.boot.retain]") || out.contains("retain"));
    assert!(out.contains("last = 10"));
}

#[test]
fn unknown_strain_errors() {
    let content = r#"
[strain.default]
subvolumes = ["@"]
"#;
    let retain = RetainConfig::default();
    let err = edited(content, "ghost", &retain).unwrap_err();
    assert!(err.contains("unknown strain"));
}

#[test]
fn preserves_comments_in_unrelated_sections() {
    let content = r#"
# important note about defaults
[strain.default]
subvolumes = ["@"]

# tier explanation
[strain.default.retain]
last = 3
"#;
    let retain = RetainConfig { last: 7, ..RetainConfig::default() };
    let out = edited(content, "default", &retain).unwrap();
    assert!(out.contains("# important note"));
    assert!(out.contains("# tier explanation"));
    assert!(out.contains("last = 7"));
}

#[test]
fn an_edit_needs_a_document_with_strain_tables() {
    let retain = RetainConfig::default();
    assert!(edited("broken = [", "default", &retain).is_err());
    assert!(edited("x = 1\n", "default", &retain).is_err());
    assert!(edited("strain = 1\n", "default", &retain).is_err());
    assert!(edited("[strain.default]\nretain = 1\n", "default", &retain).is_err());
    assert_eq!(
        set_strain_retention_at(
            &mut MockBackend::new(),
            &FsPath::new("/etc/none.toml"),
            "default",
            &retain
        )
        .unwrap_err(),
        "read /etc/none.toml: No such file or directory (os error 2)"
    );
    assert_eq!(tmp_path("/etc/revenant/config.toml"), "/etc/revenant/config.toml.tmp");
}

#[test]
fn variants_render_under_revenant_namespace() {
    let cases = [
        (
            DaemonError::NotAuthorized("x".to_string()),
            "org.revenant.Error.NotAuthorized",
        ),
        (DaemonError::NotFound("x".to_string()), "org.revenant.Error.NotFound"),
        (
            DaemonError::InvalidArgument("x".to_string()),
            "org.revenant.Error.InvalidArgument",
        ),
        (
            DaemonError::PreflightBlocked("x".to_string()),
            "org.revenant.Error.PreflightBlocked",
        ),
        (DaemonError::Conflict("x".to_string()), "org.revenant.Error.Conflict"),
        (
            DaemonError::BackendUnavailable("x".to_string()),
            "org.revenant.Error.BackendUnavailable",
        ),
        (DaemonError::Internal("x".to_string()), "org.revenant.Error.Internal"),
    ];
    for (err, expected) in cases {
        assert_eq!(err.name(), expected, "for {:?}", err);
    }
}

#[test]
fn library_errors_map_to_bus_errors() {
    assert!(matches!(
        map_core_error(&RevenantError::SnapshotNotFound("x".to_string())),
        DaemonError::NotFound(_)
    ));
    assert!(matches!(
        map_core_error(&RevenantError::Other("x".to_string())),
        DaemonError::Internal(_)
    ));
    assert!(authorize(true, "a").is_ok());
    assert!(matches!(authorize(false, "a"), Err(DaemonError::NotAuthorized(_))));
}

#[test]
fn mount_path_layout() {
    let p = base_dir_for(1000, "default", "20260316-143022-456");
    assert_eq!(p, "/run/user/1000/revenant/mounts/default-20260316-143022-456");
}

#[test]
fn revenant_user_mount_path_recognises_prefix() {
    assert!(is_revenant_user_mount_path(
        "/run/user/1000/revenant/mounts/default-20260316-143022-456/@"
    ));
    assert!(is_revenant_user_mount_path("/run/user/0/revenant/mounts/anything"));
}

#[test]
fn revenant_user_mount_path_rejects_others() {
    assert!(!is_revenant_user_mount_path("/run/user/1000"));
    assert!(!is_revenant_user_mount_path("/run/user/1000/foo"));
    assert!(!is_revenant_user_mount_path("/run/revenant/toplevel"));
    assert!(!is_revenant_user_mount_path("/tmp"));
    assert!(!is_revenant_user_mount_path("/run/user/1000/revenant/other"));
}

#[test]
fn stale_mounts_come_from_the_mount_table() {
    let table = "22 1 0:2 / / rw - btrfs /dev/x rw\n23 22 0:2 /a /run/user/1000/revenant/mounts/default-20260316-143022/@ ro - btrfs /dev/x ro\n";
    assert_eq!(
        stale_mounts(table),
        vec!["/run/user/1000/revenant/mounts/default-20260316-143022/@"]
    );
}

#[test]
fn classify_subvol_event() {
    assert_eq!(
        classify_event(Some("@-default-20260316-143022-456")),
        Some("default".to_string())
    );
    assert_eq!(
        classify_event(Some("@home-periodic-20260316-143022")),
        Some("periodic".to_string())
    );
}

#[test]
fn classify_sidecar_event() {
    assert_eq!(
        classify_event(Some("default-20260316-143022-456.meta.toml")),
        Some("default".to_string())
    );
}

#[test]
fn classify_unknown_event() {
    assert_eq!(classify_event(None), None);
    assert_eq!(classify_event(Some("random")), None);
    assert_eq!(classify_event(Some("foo.tmp")), None);
}

#[test]
fn events_are_gathered_for_a_while() {
    let mut d = Debounce::new();
    assert_eq!(d.deadline, None);
    d.event(Some("@-default-20260316-143022-456"), 1000);
    d.event(Some("default-20260316-143022-456.meta.toml"), 1100);
    d.event(Some("@-boot-20260316-143022-456"), 1150);
    assert_eq!(d.deadline, Some(1000 + DEBOUNCE_MS));
    assert_eq!(d.fire(), vec!["default", "boot"]);
    assert_eq!(d.deadline, None);
    d.event(Some("@-default-20260316-143022-456"), 5000);
    d.event(None, 5001);
    assert_eq!(d.fire(), vec![""]);
}

#[test]
fn idle_mounts_are_swept_and_busy_ones_stay() {
    let config = config();
    let s = snap("20260316-143022", "default");
    let mut m = SnapshotMountManager::new();
    let plan = match m.mount_snapshot(&config, &s, 1000, 10) {
        MountRequest::Needed(p) => p,
        other => panic!("{:?}", other),
    };
    assert_eq!(
        plan.base_dir,
        "/run/user/1000/revenant/mounts/default-20260316-143022"
    );
    assert_eq!(plan.device, "/dev/disk/by-uuid/12345678-1234-1234-1234-123456789abc");
    m.mounted_now(ActiveMount {
        strain: "default".to_string(),
        id: "20260316-143022".to_string(),
        base_dir: plan.base_dir,
        subvols: vec![],
        last_active: 10,
    });
    assert!(matches!(m.mount_snapshot(&config, &s, 1000, 20), MountRequest::Mounted(_)));
    assert!(m.idle_sweep(20 + IDLE_TIMEOUT_MS - 1).is_empty());
    let now = 20 + IDLE_TIMEOUT_MS;
    assert_eq!(m.idle_sweep(now).len(), 1);
    assert!(m.settle("default", "20260316-143022", &vec![Unmounted::Busy], now).is_none());
    assert!(m.idle_sweep(now).is_empty());
    assert!(m
        .settle("default", "20260316-143022", &vec![Unmounted::Done], now)
        .is_some());
    assert!(m.shutdown().is_empty());
    assert!(m.unmount_snapshot("default", "20260316-143022").is_none());
}

#[test]
fn a_degraded_daemon_says_why() {
    let state = DaemonState::initialize(Err("no file".to_string()), Err("unused".to_string()));
    assert!(matches!(state.degraded, Some(DegradedReason::ConfigLoad(_))));
    match state.ready() {
        Err(DaemonError::BackendUnavailable(m)) => assert!(m.contains("no file"), "{}", m),
        other => panic!("{:?}", other),
    }
    let mut state = DaemonState::initialize(Ok(config()), Ok("/run/revenant/toplevel".to_string()));
    assert!(state.ready().is_ok());
    state.reload_config(config());
    assert_eq!(state.backend_name(), "btrfs");
    let info = get_daemon_info("1.2.3", &state);
    assert_eq!(text(&info, "version"), Some("1.2.3".to_string()));
}

#[test]
fn strains_are_served() {
    let config = config();
    let all = list_strains(&config);
    assert_eq!(all.len(), 1);
    assert_eq!(all[0].name, "default");
    assert_eq!(all[0].display_name, "Everyday");
    assert!(get_strain(&config, "default").is_ok());
    assert!(matches!(get_strain(&config, "ghost"), Err(DaemonError::NotFound(_))));
}

#[test]
fn tiers_are_read_from_the_bus() {
    let tiers = vec![
        TierArg { key: "last".to_string(), value: Ok(3) },
        TierArg { key: "daily".to_string(), value: Ok(7) },
    ];
    let r = parse_retain(&tiers).unwrap();
    assert_eq!((r.last, r.daily, r.hourly), (3, 7, 0));
    let bad = vec![TierArg { key: "last".to_string(), value: Err("text".to_string()) }];
    assert!(matches!(parse_retain(&bad), Err(DaemonError::InvalidArgument(_))));
}

#[test]
fn the_latest_strain_is_found() {
    assert_eq!(get_latest_strain(&vec![]), "");
    let snaps = vec![snap("20260101-000000", "default"), snap("20260105-000000", "boot")];
    assert_eq!(get_latest_strain(&snaps), "boot");
}

#[test]
fn snapshots_are_served() {
    let config = config();
    let mut mock = system();
    let made =
        take_snapshot(&config, &mut mock, &top(), "default", vec!["note".to_string()]).unwrap();
    let id = text(&made, "id").unwrap();
    assert_eq!(list_snapshots(&config, &mock, &top(), None).unwrap().len(), 1);
    assert_eq!(list_snapshots(&config, &mock, &top(), Some("ghost")).unwrap().len(), 0);
    let one = get_snapshot(&config, &mock, &top(), "default", &id).unwrap();
    assert_eq!(text(&one, "strain"), Some("default".to_string()));
    assert!(matches!(
        get_snapshot(&config, &mock, &top(), "default", "20260101-000000"),
        Err(DaemonError::NotFound(_))
    ));
    assert!(matches!(
        get_snapshot(&config, &mock, &top(), "default", "bogus"),
        Err(DaemonError::InvalidArgument(_))
    ));
    remove_snapshot(&config, &mut mock, &top(), "default", &id).unwrap();
    assert!(list_snapshots(&config, &mock, &top(), None).unwrap().is_empty());
}

#[test]
fn a_restore_over_the_bus_leaves_a_marker() {
    let config = config();
    let mut mock = system();
    mock.seed_subvolume(&top().join("@snapshots/@-default-20260101-000000"));
    let before = mock.all_paths();
    restore(
        &config,
        &mut mock,
        &top(),
        "default",
        "20260101-000000",
        Some(false),
        Some(true),
        &vec![],
    )
    .unwrap();
    assert_eq!(mock.all_paths(), before);
    assert!(matches!(
        restore(
            &config,
            &mut mock,
            &top(),
            "default",
            "20260101-000000",
            None,
            None,
            &vec!["web".to_string()]
        ),
        Err(DaemonError::PreflightBlocked(_))
    ));
    assert_eq!(mock.all_paths(), before);
    restore(
        &config,
        &mut mock,
        &top(),
        "default",
        "20260101-000000",
        Some(false),
        Some(false),
        &vec![],
    )
    .unwrap();
    let live = get_live_parent(&config, &mock, &top());
    assert_eq!(text(&live, "id"), Some("20260101-000000".to_string()));
    let markers = list_delete_markers(&config, &mock, &top()).unwrap();
    assert_eq!(markers.len(), 1);
    let name = text(&markers[0], "name").unwrap();
    let purged = purge_delete_markers(&config, &mut mock, &top(), &vec![name.clone()]).unwrap();
    assert_eq!(purged, vec![name]);
}

#[test]
fn devices_and_mount_points() {
    assert_eq!(device_path("abc"), "/dev/disk/by-uuid/abc");
    assert!(is_mount_point(Some(1), Some(2)));
    assert!(!is_mount_point(Some(1), Some(1)));
    assert!(!is_mount_point(None, Some(1)));
}

#[test]
fn an_edited_retention_reads_back() {
    let head = r#"# kept
[sys]
rootfs_subvol = "@"

[sys.rootfs]
backend = "btrfs"
device_uuid = "12345678-1234-1234-1234-123456789abc"

[sys.efi]
enabled = false

[sys.bootloader]
backend = "systemd-boot"

"#;
    let strains = [
        "[strain.default]\nsubvolumes = [\"@\"]\n",
        "[strain.default]\nsubvolumes = [\"@\"]\n\n[strain.default.retain] # here\nlast = 3\nweekly = 9\n",
        "[strain.default]\nsubvolumes = [\"@\"]\nretain.daily = 4\nretain.last = 2\n",
        "[strain]\ndefault.subvolumes = [\"@\"]\n",
    ];
    let retain = RetainConfig { last: 6, hourly: 0, daily: 0, weekly: 0, monthly: 2, yearly: 1 };
    for s in strains {
        let out = edited(&format!("{}{}", head, s), "default", &retain).unwrap();
        assert!(out.starts_with("# kept\n"));
        let read: Config = out.parse().unwrap();
        let default = read.strain("default").unwrap();
        assert_eq!(default.subvolumes, vec!["@"]);
        assert_eq!(default.retain.last, 6);
        assert_eq!(default.retain.hourly, 0);
        assert_eq!(default.retain.daily, 0);
        assert_eq!(default.retain.weekly, 0);
        assert_eq!(default.retain.monthly, 2);
        assert_eq!(default.retain.yearly, 1);
        assert_eq!(read.sys.rootfs_subvol, "@");
    }
}

#[test]
fn a_protected_snapshot_is_not_removed_over_the_bus() {
    let config = config();
    let mut mock = system();
    let made = take_snapshot(&config, &mut mock, &top(), "default", vec![]).unwrap();
    let id = text(&made, "id").unwrap();
    let all = discover_snapshots(&config, &mock, &top()).unwrap();
    let patch = MetadataPatch { protected: Some(true), message: None };
    update_snapshot_metadata(&config, &mut mock, &top(), &all[0], &patch).unwrap();
    let before = mock.all_paths();
    assert!(remove_snapshot(&config, &mut mock, &top(), "default", &id).is_err());
    assert_eq!(mock.all_paths(), before);
}

#[test]
fn a_snapshot_of_no_strain_is_not_restored_over_the_bus() {
    let config = config();
    let mut mock = system();
    mock.seed_subvolume(&top().join("@snapshots/@-default-20260101-000000"));
    mock.seed_subvolume(&top().join("@snapshots/@-ghost-20260102-000000"));
    let before = mock.all_paths();
    assert!(matches!(
        restore(
            &config,
            &mut mock,
            &top(),
            "ghost",
            "20260102-000000",
            Some(false),
            None,
            &vec![]
        ),
        Err(DaemonError::NotFound(_))
    ));
    assert_eq!(mock.all_paths(), before);
}

#[test]
fn a_failed_mount_is_undone() {
    let config = config();
    let mut one = snap("20260101-000000", "default");
    one.subvolumes = vec!["@".to_string(), "@home".to_string()];
    let plan = plan_mount(&config, &one, 1000);
    assert_eq!(plan.steps.len(), 2);
    assert!(matches!(
        next_action(&plan, 0, false),
        MountAction::Mount { option, .. }
            if option == "subvol=@snapshots/@-default-20260101-000000"
    ));
    match next_action(&plan, 1, true) {
        MountAction::Undo { points, base_dir } => {
            assert_eq!(points, vec![plan.steps[0].path.clone()]);
            assert_eq!(base_dir, plan.base_dir);
        }
        other => panic!("{:?}", other),
    }
    match next_action(&plan, 2, false) {
        MountAction::Finished { subvols } => {
            assert_eq!(subvols.len(), 2);
            assert_eq!(subvols[1].name, "@home");
            assert_eq!(subvols[1].path, plan.steps[1].path);
        }
        other => panic!("{:?}", other),
    }
}

#[test]
fn a_retention_set_over_the_bus_is_in_force() {
    let text = r#"
[sys]
rootfs_subvol = "@"

[sys.rootfs]
backend = "btrfs"
device_uuid = "12345678-1234-1234-1234-123456789abc"

[sys.efi]
enabled = false

[sys.bootloader]
backend = "systemd-boot"

[strain.default]
subvolumes = ["@"]
"#;
    let path = FsPath::new(CONFIG_PATH);
    let mut mock = MockBackend::new();
    mock.write_file(&path, text).unwrap();
    let mut state = DaemonState::initialize(
        Config::load(&mock, &path).map_err(|e| e.message()),
        Ok("/run/revenant".to_string()),
    );
    let tiers = |n: u32| vec![TierArg { key: "daily".to_string(), value: Ok(n) }];
    set_strain_retention(&mut state, &mut mock, "default", &tiers(9)).unwrap();
    let retain = &state.config.as_ref().unwrap().strain("default").unwrap().retain;
    assert_eq!((retain.daily, retain.last), (9, 0));
    assert!(matches!(
        set_strain_retention(&mut state, &mut mock, "ghost", &tiers(1)),
        Err(DaemonError::NotFound(_))
    ));
    // A policy that keeps nothing is refused when the file is read again.
    assert!(matches!(
        set_strain_retention(&mut state, &mut mock, "default", &tiers(0)),
        Err(DaemonError::Internal(m)) if m.starts_with("reload config: ")
    ));
    assert_eq!(state.config.as_ref().unwrap().strain("default").unwrap().retain.daily, 9);
    let mut none = DaemonState::initialize(Err("gone".to_string()), Err("gone".to_string()));
    assert!(matches!(
        set_strain_retention(&mut none, &mut mock, "default", &tiers(1)),
        Err(DaemonError::BackendUnavailable(_))
    ));
}

#[test]
fn a_restore_saves_the_current_state_first() {
    let config = config();
    let mut mock = system();
    mock.seed_subvolume(&top().join("@snapshots/@-default-20260101-000000"));
    let out = restore(
        &config,
        &mut mock,
        &top(),
        "default",
        "20260101-000000",
        None,
        None,
        &vec![],
    )
    .unwrap();
    let saved = text(&out, "pre_restore_id").unwrap();
    assert_eq!(text(&out, "pre_restore_strain"), Some("default".to_string()));
    assert_eq!(text(&out, "restored_id"), Some("20260101-000000".to_string()));
    let all = discover_snapshots(&config, &mock, &top()).unwrap();
    assert_eq!(all.len(), 2);
    let pre = all.iter().find(|s| s.id.as_str() == saved).unwrap();
    assert_eq!(pre.metadata.as_ref().unwrap().message, vec!["20260101-000000"]);
    assert_eq!(list_delete_markers(&config, &mock, &top()).unwrap().len(), 1);
}

#[test]
fn requests_go_by_the_times_given() {
    let config = config();
    let mut mock = system();
    let id = |s: &str| SnapshotId::from_string(s).unwrap();
    let created_at = WallTime { secs: 1_768_000_000, nanos: 0, offset: 0 };
    let made = take_snapshot_at(
        &config,
        &mut mock,
        &top(),
        "default",
        vec![],
        id("20260110-120000-123"),
        created_at,
    )
    .unwrap();
    assert_eq!(text(&made, "id"), Some("20260110-120000-123".to_string()));
    let out = restore_at(
        &config,
        &mut mock,
        &top(),
        "default",
        "20260110-120000-123",
        Some(true),
        None,
        &vec![],
        id("20260111-000000-000"),
        created_at,
        &id("20260111-000001-000"),
    )
    .unwrap();
    assert_eq!(text(&out, "pre_restore_id"), Some("20260111-000000-000".to_string()));
    let markers = list_delete_markers(&config, &mock, &top()).unwrap();
    assert_eq!(text(&markers[0], "name"), Some("@-DELETE-20260111-000001-000".to_string()));
}

#[test]
fn an_absolute_subvolume_name_is_its_own_mount_point() {
    let config = config();
    let mut one = snap("20260101-000000", "default");
    one.subvolumes = vec!["@".to_string(), "/elsewhere".to_string()];
    let plan = plan_mount(&config, &one, 1000);
    assert_eq!(plan.steps[0].path, format!("{}/@", plan.base_dir));
    assert_eq!(plan.steps[1].path, "/elsewhere");
}
