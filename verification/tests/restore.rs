use revenant::backend::mock::MockBackend;
use revenant::backend::FileSystemBackend;
use revenant::config::Config;
use revenant::error::RevenantError;
use revenant::metadata::TriggerKind;
use revenant::path::FsPath;
use revenant::restore::restore_snapshot;
use revenant::snapshot::{create_snapshot, discover_snapshots, SnapshotId, SnapshotInfo};

fn top() -> FsPath {
    FsPath::new("/top")
}

fn p(s: &str) -> FsPath {
    FsPath::new(s)
}

/// One strain `default` over the given subvolumes, without EFI.
fn config_no_efi(subvols: &[&str]) -> Config {
    let subvol_list = subvols.iter().map(|s| format!("\"{}\"", s)).collect::<Vec<_>>().join(", ");
    let toml = format!(
        r#"
[sys]
rootfs_subvol = "@"
snapshot_subvol = "@snapshots"

[sys.rootfs]
backend = "btrfs"
device_uuid = "12345678-1234-1234-1234-123456789abc"

[sys.efi]
enabled = false

[sys.bootloader]
backend = "systemd-boot"

[strain.default]
subvolumes = [{}]
"#,
        subvol_list
    );
    toml.parse().unwrap()
}

fn setup_mock(config: &Config, toplevel: &FsPath) -> MockBackend {
    let mut mock = MockBackend::new();
    for entry in config.strain.entries() {
        for sv in &entry.config.subvolumes {
            let p = toplevel.join(sv);
            if !mock.contains(&p) {
                mock.seed_subvolume(&p);
            }
        }
    }
    mock.seed_subvolume(&toplevel.join(&config.sys.snapshot_subvol));
    mock
}

/// Seed a complete snapshot over all configured subvolumes.
fn seed_snapshot(
    mock: &mut MockBackend,
    config: &Config,
    toplevel: &FsPath,
    strain: &str,
    id: &str,
) {
    let snap_dir = toplevel.join(&config.sys.snapshot_subvol);
    for sv in &config.strain.get(strain).unwrap().subvolumes {
        mock.seed_subvolume(&snap_dir.join(&format!("{}-{}-{}", sv, strain, id)));
    }
}

fn snap_info(id: &str, strain: &str, subvols: &[&str]) -> SnapshotInfo {
    SnapshotInfo {
        id: SnapshotId::from_string(id).unwrap(),
        strain: strain.to_string(),
        subvolumes: subvols.iter().map(|s| (*s).to_string()).collect(),
        efi_synced: false,
        metadata: None,
    }
}

/// The paths at the top whose names begin with `prefix`.
fn markers(mock: &MockBackend, prefix: &str) -> Vec<FsPath> {
    mock.all_paths()
        .into_iter()
        .filter(|p| {
            p.parent() == Some(top()) && p.file_name().is_some_and(|n| n.starts_with(prefix))
        })
        .collect()
}

#[test]
fn happy_path_single_subvol() {
    let config = config_no_efi(&["@"]);
    let toplevel = top();
    let mut mock = setup_mock(&config, &toplevel);
    seed_snapshot(&mut mock, &config, &toplevel, "default", "20260316-143022");

    let snap = snap_info("20260316-143022", "default", &["@"]);
    restore_snapshot(&config, &mut mock, &toplevel, &snap).unwrap();

    assert!(mock.contains(&p("/top/@")));
}

#[test]
fn does_not_create_auto_safety_snapshot() {
    let config = config_no_efi(&["@"]);
    let toplevel = top();
    let mut mock = setup_mock(&config, &toplevel);
    seed_snapshot(&mut mock, &config, &toplevel, "default", "20260316-143022");

    let snap = snap_info("20260316-143022", "default", &["@"]);
    restore_snapshot(&config, &mut mock, &toplevel, &snap).unwrap();

    let all = discover_snapshots(&config, &mock, &toplevel).unwrap();
    let in_default: Vec<_> = all.iter().filter(|s| s.strain == "default").collect();
    assert_eq!(
        in_default.len(),
        1,
        "no auto pre-restore snapshot should be created, got: {in_default:?}"
    );
    assert_eq!(in_default[0].id.as_str(), "20260316-143022");
}

#[test]
fn delete_marker_survives_subsequent_create_snapshot() {
    let config = config_no_efi(&["@"]);
    let toplevel = top();
    let mut mock = setup_mock(&config, &toplevel);
    seed_snapshot(&mut mock, &config, &toplevel, "default", "20260316-143022");

    let snap = snap_info("20260316-143022", "default", &["@"]);
    restore_snapshot(&config, &mut mock, &toplevel, &snap).unwrap();

    let marker_before = markers(&mock, "@-DELETE-").into_iter().next()
        .expect("expected DELETE marker after restore");

    create_snapshot(
        &config,
        &mut mock,
        &toplevel,
        "default",
        TriggerKind::Unknown,
        vec![],
    )
    .unwrap();

    assert!(
        mock.contains(&marker_before),
        "DELETE marker must not be purged by create_snapshot"
    );
}

#[test]
fn renames_current_to_delete_marker() {
    let config = config_no_efi(&["@"]);
    let toplevel = top();
    let mut mock = setup_mock(&config, &toplevel);
    seed_snapshot(&mut mock, &config, &toplevel, "default", "20260316-143022");

    let snap = snap_info("20260316-143022", "default", &["@"]);
    restore_snapshot(&config, &mut mock, &toplevel, &snap).unwrap();

    let delete_marker = markers(&mock, "@-DELETE-").into_iter().next();
    assert!(
        delete_marker.is_some(),
        "expected @-DELETE-* marker in toplevel"
    );
}

#[test]
fn rejects_incomplete_snapshot() {
    let config = config_no_efi(&["@", "@home"]);
    let toplevel = top();
    let mut mock = setup_mock(&config, &toplevel);
    let snap_dir = toplevel.join(&config.sys.snapshot_subvol);
    mock.seed_subvolume(&snap_dir.join("@-default-20260316-143022"));

    let snap = snap_info("20260316-143022", "default", &["@", "@home"]);
    let err = restore_snapshot(&config, &mut mock, &toplevel, &snap).unwrap_err();
    match err {
        RevenantError::IncompleteSnapshot { id, missing } => {
            assert_eq!(id, "20260316-143022");
            assert_eq!(missing, vec!["@home".to_string()]);
        }
        other => panic!("expected IncompleteSnapshot, got {other:?}"),
    }
}

#[test]
fn nested_subvols_are_reattached_after_restore() {
    let config = config_no_efi(&["@"]);
    let toplevel = top();
    let mut mock = setup_mock(&config, &toplevel);

    mock.seed_subvolume(&p("/top/@/var/lib/portables"));
    mock.seed_subvolume(&p("/top/@/var/lib/machines"));

    seed_snapshot(&mut mock, &config, &toplevel, "default", "20260316-143022");

    let snap = snap_info("20260316-143022", "default", &["@"]);
    restore_snapshot(&config, &mut mock, &toplevel, &snap).unwrap();

    assert!(
        mock.contains(&p("/top/@/var/lib/portables")),
        "expected nested portables subvol to be re-attached"
    );
    assert!(
        mock.contains(&p("/top/@/var/lib/machines")),
        "expected nested machines subvol to be re-attached"
    );

    let delete_marker = markers(&mock, "@-DELETE-").into_iter().next()
        .expect("expected @-DELETE-* marker after restore");
    assert!(
        !mock.contains(&delete_marker.join("var/lib/portables")),
        "nested portables should have been moved out of the DELETE marker"
    );
    assert!(
        !mock.contains(&delete_marker.join("var/lib/machines")),
        "nested machines should have been moved out of the DELETE marker"
    );
}

#[test]
fn nested_subvols_per_strain_subvol() {
    let config = config_no_efi(&["@", "@home"]);
    let toplevel = top();
    let mut mock = setup_mock(&config, &toplevel);

    mock.seed_subvolume(&p("/top/@/var/lib/portables"));
    mock.seed_subvolume(&p("/top/@home/.cache/build"));

    seed_snapshot(&mut mock, &config, &toplevel, "default", "20260316-143022");

    let snap = snap_info("20260316-143022", "default", &["@", "@home"]);
    restore_snapshot(&config, &mut mock, &toplevel, &snap).unwrap();

    assert!(mock.contains(&p("/top/@/var/lib/portables")));
    assert!(mock.contains(&p("/top/@home/.cache/build")));
    assert!(!mock.contains(&p("/top/@home/var/lib/portables")));
    assert!(!mock.contains(&p("/top/@/.cache/build")));
}

#[test]
fn nested_subvol_parent_path_is_materialised() {
    let config = config_no_efi(&["@"]);
    let toplevel = top();
    let mut mock = setup_mock(&config, &toplevel);

    mock.seed_subvolume(&p("/top/@/var/lib/portables"));

    seed_snapshot(&mut mock, &config, &toplevel, "default", "20260316-143022");

    let snap = snap_info("20260316-143022", "default", &["@"]);
    restore_snapshot(&config, &mut mock, &toplevel, &snap).unwrap();

    assert!(mock.contains(&p("/top/@/var/lib/portables")));

    let created = mock.created_dirs();
    assert!(
        created.contains(&p("/top/@/var/lib")),
        "expected create_dir_all('/top/@/var/lib'), got: {created:?}"
    );
}

#[test]
fn deeply_nested_subvols_ride_along() {
    let config = config_no_efi(&["@"]);
    let toplevel = top();
    let mut mock = setup_mock(&config, &toplevel);

    mock.seed_subvolume(&p("/top/@/var/lib/portables"));
    mock.seed_subvolume(&p("/top/@/var/lib/portables/inner"));

    seed_snapshot(&mut mock, &config, &toplevel, "default", "20260316-143022");

    let snap = snap_info("20260316-143022", "default", &["@"]);
    restore_snapshot(&config, &mut mock, &toplevel, &snap).unwrap();

    assert!(mock.contains(&p("/top/@/var/lib/portables")));
    assert!(mock.contains(&p("/top/@/var/lib/portables/inner")));
}

#[test]
fn multi_subvol_restore() {
    let config = config_no_efi(&["@", "@home"]);
    let toplevel = top();
    let mut mock = setup_mock(&config, &toplevel);
    seed_snapshot(&mut mock, &config, &toplevel, "default", "20260316-143022");

    let snap = snap_info("20260316-143022", "default", &["@", "@home"]);
    restore_snapshot(&config, &mut mock, &toplevel, &snap).unwrap();

    assert!(mock.contains(&p("/top/@")));
    assert!(mock.contains(&p("/top/@home")));
    let markers: Vec<_> = mock
        .all_paths()
        .into_iter()
        .filter(|p| {
            p.parent() == Some(top()) && p.file_name().is_some_and(|n| n.contains("-DELETE-"))
        })
        .collect();
    assert_eq!(
        markers.len(),
        2,
        "expected one DELETE marker per subvol, got: {markers:?}"
    );
}

#[test]
fn the_restored_subvolume_holds_what_the_snapshot_held() {
    let config = config_no_efi(&["@"]);
    let toplevel = top();
    let mut mock = setup_mock(&config, &toplevel);
    mock.write_file(&p("/top/@/etc/state"), "before").unwrap();
    let snap = create_snapshot(
        &config,
        &mut mock,
        &toplevel,
        "default",
        TriggerKind::Manual,
        vec![],
    )
    .unwrap();
    mock.write_file(&p("/top/@/etc/state"), "after").unwrap();
    restore_snapshot(&config, &mut mock, &toplevel, &snap).unwrap();
    assert_eq!(mock.read_file(&p("/top/@/etc/state")).unwrap(), Some("before".to_string()));
    let marker = markers(&mock, "@-DELETE-").remove(0);
    assert_eq!(
        mock.read_file(&marker.join("etc/state")).unwrap(),
        Some("after".to_string())
    );
    assert_eq!(mock.default_subvolume(), Some(p("/top/@")));
}

#[test]
fn a_stale_package_lock_does_not_come_back() {
    let config = config_no_efi(&["@"]);
    let toplevel = top();
    let mut mock = setup_mock(&config, &toplevel);
    mock.write_file(&p("/top/@/var/lib/pacman/db.lck"), "").unwrap();
    let snap = create_snapshot(
        &config,
        &mut mock,
        &toplevel,
        "default",
        TriggerKind::Pacman,
        vec![],
    )
    .unwrap();
    restore_snapshot(&config, &mut mock, &toplevel, &snap).unwrap();
    assert_eq!(mock.read_file(&p("/top/@/var/lib/pacman/db.lck")).unwrap(), None);
}

#[test]
fn a_refused_restore_changes_nothing() {
    let config = config_no_efi(&["@", "@home"]);
    let toplevel = top();
    let mut mock = setup_mock(&config, &toplevel);
    mock.seed_subvolume(&p("/top/@snapshots/@-default-20260316-143022"));
    let before = mock.all_paths();
    let snap = snap_info("20260316-143022", "default", &["@", "@home"]);
    assert!(restore_snapshot(&config, &mut mock, &toplevel, &snap).is_err());
    assert_eq!(mock.all_paths(), before);
}

#[test]
fn restore_brings_back_the_efi_partition() {
    let config: Config = r#"
[sys]
rootfs_subvol = "@"
snapshot_subvol = "@snapshots"

[sys.rootfs]
backend = "btrfs"
device_uuid = "12345678-1234-1234-1234-123456789abc"

[sys.efi]
enabled = true
mount_point = "/boot"
staging_subvol = "@boot"

[sys.bootloader]
backend = "systemd-boot"

[strain.default]
subvolumes = ["@"]
efi = true
"#
    .parse()
    .unwrap();
    let toplevel = top();
    let mut mock = setup_mock(&config, &toplevel);
    mock.write_file(&p("/boot/loader/entry.conf"), "old kernel").unwrap();
    let info = create_snapshot(
        &config,
        &mut mock,
        &toplevel,
        "default",
        TriggerKind::Manual,
        Vec::new(),
    )
    .unwrap();
    assert!(info.efi_synced);
    // The staging subvolume is made on the way, and filled.
    assert_eq!(
        mock.read_file(&p("/top/@boot/loader/entry.conf")).unwrap(),
        Some("old kernel".to_string())
    );
    mock.write_file(&p("/boot/loader/entry.conf"), "new").unwrap();
    mock.write_file(&p("/boot/loader/other.conf"), "stray").unwrap();
    mock.write_file(&p("/top/@/var/lib/pacman/db.lck"), "").unwrap();
    restore_snapshot(&config, &mut mock, &toplevel, &info).unwrap();
    assert_eq!(
        mock.read_file(&p("/boot/loader/entry.conf")).unwrap(),
        Some("old kernel".to_string())
    );
    assert_eq!(mock.read_file(&p("/boot/loader/other.conf")).unwrap(), None);
    assert_eq!(mock.read_file(&p("/top/@/var/lib/pacman/db.lck")).unwrap(), None);
}

#[test]
fn other_failures_are_not_reported_as_missing_parts() {
    let config = config_no_efi(&["@"]);
    let toplevel = top();
    let mut mock = setup_mock(&config, &toplevel);
    seed_snapshot(&mut mock, &config, &toplevel, "default", "20260316-143022");
    let info = snap_info("20260316-143022", "default", &["@"]);
    mock.delete_subvolume(&p("/top/@")).unwrap();
    let err = restore_snapshot(&config, &mut mock, &toplevel, &info).unwrap_err();
    assert!(matches!(err, RevenantError::SubvolumeNotFound(_)));
}
