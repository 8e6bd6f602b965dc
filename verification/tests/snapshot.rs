use revenant::backend::mock::MockBackend;
use revenant::backend::FileSystemBackend;
use revenant::clock::{calendar, Moment};
use revenant::config::Config;
use revenant::error::RevenantError;
use revenant::metadata::{read, SnapshotMetadata, TriggerKind};
use revenant::path::FsPath;
use revenant::snapshot::id::ID_LEN_CURRENT;
use revenant::snapshot::info::{sidecar_path_for_snapshot, snapshot_dir};
use revenant::snapshot::{
    create_snapshot, delete_all_strain, delete_snapshot, discover_snapshots,
    parse_snapshot_subvol_name, qualified, resolve_live_parent, update_snapshot_metadata,
    MetadataPatch, SnapshotId, SnapshotTarget,
};

fn top() -> FsPath {
    FsPath::new("/top")
}

fn config_with(strains: &[&str], subvols: &[&str]) -> Config {
    let subvol_list = subvols.iter().map(|s| format!("\"{}\"", s)).collect::<Vec<_>>().join(", ");
    let mut toml = String::from(
        r#"
[sys]
rootfs_subvol = "@"
snapshot_subvol = "@snapshots"

[sys.rootfs]
backend = "btrfs"
device_uuid = "12345678-1234-1234-1234-123456789abc"

[sys.efi]
enabled = false

[sys.bootloader]
backend = "systemd-boot"
"#,
    );
    for s in strains {
        toml.push_str(&format!("\n[strain.{}]\nsubvolumes = [{}]\n", s, subvol_list));
    }
    toml.parse().unwrap()
}

/// One strain `default` over the given subvolumes, without EFI.
fn config_no_efi(subvols: &[&str]) -> Config {
    config_with(&["default"], subvols)
}

/// Two strains over the same subvolumes.
fn config_two_strains(subvols: &[&str]) -> Config {
    config_with(&["default", "periodic"], subvols)
}

/// A file system with the configured subvolumes and the snapshot directory.
fn setup_mock(config: &Config, toplevel: &FsPath) -> MockBackend {
    let mut mock = MockBackend::new();
    for entry in config.strain.entries() {
        for sv in &entry.config.subvolumes {
            let p = toplevel.join(sv);
            if !mock.contains(&p) {
                mock.seed_subvolume(&p);
            }
        }
    }
    mock.seed_subvolume(&toplevel.join(&config.sys.snapshot_subvol));
    mock
}

/// Move the live subvolume out of the way and clone it anew from a snapshot.
fn simulate_restore(mock: &mut MockBackend, live: &FsPath, snap: &FsPath, delete_ts: &str) {
    let name = format!("{}-DELETE-{}", live.file_name().unwrap(), delete_ts);
    let deleted = live.parent().unwrap().join(&name);
    mock.rename_subvolume(live, &deleted).unwrap();
    mock.create_writable_snapshot(snap, live).unwrap();
}

fn shown(m: &Moment) -> String {
    let c = calendar(m.secs);
    format!(
        "{:04}-{:02}-{:02} {:02}:{:02}:{:02}.{:03}",
        c.year,
        c.month,
        c.day,
        c.hour,
        c.minute,
        c.second,
        m.nanos / 1_000_000
    )
}

#[test]
fn mod_discover_empty_when_no_snapshots() {
    let config = config_no_efi(&["@"]);
    let toplevel = top();
    let mut mock = setup_mock(&config, &toplevel);
    let snaps = discover_snapshots(&config, &mock, &toplevel).unwrap();
    assert!(snaps.is_empty());
}

#[test]
fn mod_discover_returns_empty_if_snap_dir_missing() {
    let config = config_no_efi(&["@"]);
    let toplevel = top();
    let mut mock = MockBackend::new();
    let snaps = discover_snapshots(&config, &mock, &toplevel).unwrap();
    assert!(snaps.is_empty());
}

#[test]
fn mod_discover_finds_single_strain_snapshot() {
    let config = config_no_efi(&["@"]);
    let toplevel = top();
    let mut mock = setup_mock(&config, &toplevel);
    mock.seed_subvolume(&toplevel.join("@snapshots/@-default-20260316-143022"));

    let snaps = discover_snapshots(&config, &mock, &toplevel).unwrap();
    assert_eq!(snaps.len(), 1);
    assert_eq!(snaps[0].id.as_str(), "20260316-143022");
    assert_eq!(snaps[0].strain, "default");
    assert_eq!(snaps[0].subvolumes, vec!["@".to_string()]);
    assert!(!snaps[0].efi_synced);
}

#[test]
fn mod_discover_groups_multi_subvol_snapshot() {
    let config = config_no_efi(&["@", "@home"]);
    let toplevel = top();
    let mut mock = setup_mock(&config, &toplevel);
    mock.seed_subvolume(&toplevel.join("@snapshots/@-default-20260316-143022"));
    mock.seed_subvolume(&toplevel.join("@snapshots/@home-default-20260316-143022"));

    let snaps = discover_snapshots(&config, &mock, &toplevel).unwrap();
    assert_eq!(
        snaps.len(),
        1,
        "the two subvols should be grouped into one snapshot"
    );
    let mut subs = snaps[0].subvolumes.clone();
    subs.sort();
    assert_eq!(subs, vec!["@".to_string(), "@home".to_string()]);
}

#[test]
fn mod_discover_separates_strains() {
    let config = config_two_strains(&["@"]);
    let toplevel = top();
    let mut mock = setup_mock(&config, &toplevel);
    mock.seed_subvolume(&toplevel.join("@snapshots/@-default-20260316-143022"));
    mock.seed_subvolume(&toplevel.join("@snapshots/@-periodic-20260316-150000"));

    let snaps = discover_snapshots(&config, &mock, &toplevel).unwrap();
    assert_eq!(snaps.len(), 2);
    let strains: Vec<&str> = snaps.iter().map(|s| s.strain.as_str()).collect();
    assert!(strains.contains(&"default"));
    assert!(strains.contains(&"periodic"));
}

#[test]
fn mod_discover_ignores_unrelated_entries() {
    let config = config_no_efi(&["@"]);
    let toplevel = top();
    let mut mock = setup_mock(&config, &toplevel);
    mock.seed_subvolume(&toplevel.join("@snapshots/@-other-20260316-143022"));
    mock.seed_subvolume(&toplevel.join("@snapshots/random-thing"));
    mock.seed_subvolume(&toplevel.join("@snapshots/@home-default-20260316-143022"));

    let snaps = discover_snapshots(&config, &mock, &toplevel).unwrap();
    assert!(
        snaps.is_empty(),
        "none of the entries match a configured (subvol, strain) pair"
    );
}

#[test]
fn mod_discover_sorts_chronologically() {
    let config = config_no_efi(&["@"]);
    let toplevel = top();
    let mut mock = setup_mock(&config, &toplevel);
    mock.seed_subvolume(&toplevel.join("@snapshots/@-default-20260316-150000"));
    mock.seed_subvolume(&toplevel.join("@snapshots/@-default-20260316-120000"));
    mock.seed_subvolume(&toplevel.join("@snapshots/@-default-20260316-130000"));

    let snaps = discover_snapshots(&config, &mock, &toplevel).unwrap();
    let ids: Vec<&str> = snaps.iter().map(|s| s.id.as_str()).collect();
    assert_eq!(
        ids,
        vec!["20260316-120000", "20260316-130000", "20260316-150000"]
    );
}

#[test]
fn mod_create_snapshot_single_subvol() {
    let config = config_no_efi(&["@"]);
    let toplevel = top();
    let mut mock = MockBackend::new();
    mock.seed_subvolume(&toplevel.join("@"));

    let info = create_snapshot(
        &config,
        &mut mock,
        &toplevel,
        "default",
        TriggerKind::Unknown,
        vec![],
    )
    .unwrap();
    assert_eq!(info.strain, "default");
    assert_eq!(info.subvolumes, vec!["@".to_string()]);
    assert!(!info.efi_synced);

    let expected = toplevel
        .join("@snapshots")
        .join(&info.id.snapshot_name("@", "default"));
    assert!(mock.contains(&expected));
    let snap_info = mock.subvolume_info(&expected).unwrap();
    assert!(snap_info.readonly);
}

#[test]
fn mod_create_snapshot_creates_snap_dir_if_missing() {
    let config = config_no_efi(&["@"]);
    let toplevel = top();
    let mut mock = MockBackend::new();
    mock.seed_subvolume(&toplevel.join("@"));

    let _ = create_snapshot(
        &config,
        &mut mock,
        &toplevel,
        "default",
        TriggerKind::Unknown,
        vec![],
    )
    .unwrap();
    assert!(mock.contains(&toplevel.join("@snapshots")));
}

#[test]
fn mod_create_snapshot_multi_subvol() {
    let config = config_no_efi(&["@", "@home"]);
    let toplevel = top();
    let mut mock = MockBackend::new();
    mock.seed_subvolume(&toplevel.join("@"));
    mock.seed_subvolume(&toplevel.join("@home"));

    let info = create_snapshot(
        &config,
        &mut mock,
        &toplevel,
        "default",
        TriggerKind::Unknown,
        vec![],
    )
    .unwrap();
    let mut subs = info.subvolumes.clone();
    subs.sort();
    assert_eq!(subs, vec!["@".to_string(), "@home".to_string()]);

    let snap_dir = toplevel.join("@snapshots");
    assert!(mock.contains(&snap_dir.join(&info.id.snapshot_name("@", "default"))));
    assert!(mock.contains(&snap_dir.join(&info.id.snapshot_name("@home", "default"))));
}

#[test]
fn mod_create_snapshot_unknown_strain_fails() {
    let config = config_no_efi(&["@"]);
    let toplevel = top();
    let mut mock = MockBackend::new();
    mock.seed_subvolume(&toplevel.join("@"));

    let err = create_snapshot(
        &config,
        &mut mock,
        &toplevel,
        "nonexistent",
        TriggerKind::Unknown,
        vec![],
    )
    .unwrap_err();
    assert!(err.message().contains("nonexistent"));
}

#[test]
fn mod_create_snapshot_then_discover_round_trip() {
    let config = config_no_efi(&["@"]);
    let toplevel = top();
    let mut mock = MockBackend::new();
    mock.seed_subvolume(&toplevel.join("@"));

    let info = create_snapshot(
        &config,
        &mut mock,
        &toplevel,
        "default",
        TriggerKind::Unknown,
        vec![],
    )
    .unwrap();
    let snaps = discover_snapshots(&config, &mock, &toplevel).unwrap();
    assert_eq!(snaps.len(), 1);
    assert_eq!(snaps[0].id, info.id);
}

#[test]
fn mod_delete_snapshot_removes_all_subvols() {
    let config = config_no_efi(&["@", "@home"]);
    let toplevel = top();
    let mut mock = MockBackend::new();
    mock.seed_subvolume(&toplevel.join("@"));
    mock.seed_subvolume(&toplevel.join("@home"));

    let info = create_snapshot(
        &config,
        &mut mock,
        &toplevel,
        "default",
        TriggerKind::Unknown,
        vec![],
    )
    .unwrap();
    let snap_dir = toplevel.join("@snapshots");
    let p_root = snap_dir.join(&info.id.snapshot_name("@", "default"));
    let p_home = snap_dir.join(&info.id.snapshot_name("@home", "default"));
    assert!(mock.contains(&p_root));
    assert!(mock.contains(&p_home));

    delete_snapshot(&config, &mut mock, &toplevel, &info).unwrap();
    assert!(!mock.contains(&p_root));
    assert!(!mock.contains(&p_home));
}

#[test]
fn mod_delete_snapshot_is_idempotent_on_missing_subvols() {
    let config = config_no_efi(&["@"]);
    let toplevel = top();
    let mut mock = MockBackend::new();
    mock.seed_subvolume(&toplevel.join("@"));

    let info = create_snapshot(
        &config,
        &mut mock,
        &toplevel,
        "default",
        TriggerKind::Unknown,
        vec![],
    )
    .unwrap();
    delete_snapshot(&config, &mut mock, &toplevel, &info).unwrap();
    delete_snapshot(&config, &mut mock, &toplevel, &info).unwrap();
}

#[test]
fn mod_delete_all_strain_targets_only_named_strain() {
    let config = config_two_strains(&["@"]);
    let toplevel = top();
    let mut mock = setup_mock(&config, &toplevel);
    mock.seed_subvolume(&toplevel.join("@snapshots/@-default-20260316-100000"));
    mock.seed_subvolume(&toplevel.join("@snapshots/@-default-20260316-110000"));
    mock.seed_subvolume(&toplevel.join("@snapshots/@-periodic-20260316-120000"));

    let removed = delete_all_strain(&config, &mut mock, &toplevel, "default").unwrap();
    assert_eq!(removed.deleted.len(), 2);
    assert!(removed.skipped_protected.is_empty());

    let snaps = discover_snapshots(&config, &mock, &toplevel).unwrap();
    assert_eq!(snaps.len(), 1);
    assert_eq!(snaps[0].strain, "periodic");
    assert_eq!(snaps[0].id.as_str(), "20260316-120000");
}

#[test]
fn mod_delete_all_strain_empty_when_no_snapshots() {
    let config = config_no_efi(&["@"]);
    let toplevel = top();
    let mut mock = setup_mock(&config, &toplevel);

    let removed = delete_all_strain(&config, &mut mock, &toplevel, "default").unwrap();
    assert!(removed.deleted.is_empty());
    assert!(removed.skipped_protected.is_empty());
}

#[test]
fn mod_create_snapshot_writes_sidecar() {
    let config = config_no_efi(&["@"]);
    let toplevel = top();
    let mut mock = MockBackend::new();
    mock.seed_subvolume(&toplevel.join("@"));
    mock.seed_subvolume(&toplevel.join("@snapshots"));

    let info = create_snapshot(
        &config,
        &mut mock,
        &toplevel,
        "default",
        TriggerKind::Manual,
        vec!["ci test".into()],
    )
    .unwrap();

    let sidecar = toplevel
        .join("@snapshots")
        .join(&format!("default-{}.meta.toml", info.id.as_str()));
    assert!(mock.read_file(&sidecar).unwrap().is_some(), "sidecar should be written on disk");
    let meta = read(&mock, &sidecar).unwrap().unwrap();
    assert_eq!(meta.message, vec!["ci test".to_string()]);
    assert_eq!(meta.trigger, TriggerKind::Manual);
    assert!(info.metadata.is_some());

}

#[test]
fn mod_discover_attaches_metadata_when_sidecar_present() {
    let config = config_no_efi(&["@"]);
    let toplevel = top();
    let mut mock = setup_mock(&config, &toplevel);
    mock.seed_subvolume(&toplevel.join("@snapshots/@-default-20260316-143022"));

    let sidecar = toplevel
        .join("@snapshots")
        .join("default-20260316-143022.meta.toml");
    let meta = SnapshotMetadata::new(TriggerKind::Manual, vec!["hello".into()]);
    revenant::metadata::write(&mut mock, &sidecar, &meta).unwrap();

    let snaps = discover_snapshots(&config, &mock, &toplevel).unwrap();
    assert_eq!(snaps.len(), 1);
    let m = snaps[0].metadata.as_ref().expect("metadata attached");
    assert_eq!(m.message, vec!["hello".to_string()]);
    assert_eq!(m.trigger, TriggerKind::Manual);

}

#[test]
fn mod_discover_tolerates_missing_sidecar() {
    let config = config_no_efi(&["@"]);
    let toplevel = top();
    let mut mock = setup_mock(&config, &toplevel);
    mock.seed_subvolume(&toplevel.join("@snapshots/@-default-20260316-143022"));

    let snaps = discover_snapshots(&config, &mock, &toplevel).unwrap();
    assert_eq!(snaps.len(), 1);
    assert!(snaps[0].metadata.is_none());

}

#[test]
fn delete_snapshot_refuses_protected() {
    let config = config_no_efi(&["@"]);
    let toplevel = top();
    let mut mock = MockBackend::new();
    mock.seed_subvolume(&toplevel.join("@"));
    mock.seed_subvolume(&toplevel.join("@snapshots"));

    let info = create_snapshot(
        &config,
        &mut mock,
        &toplevel,
        "default",
        TriggerKind::Manual,
        vec![],
    )
    .unwrap();

    let snap_dir = snapshot_dir(&config, &toplevel);
    let sidecar = sidecar_path_for_snapshot(&snap_dir, "default", &info.id);
    let protected_meta =
        SnapshotMetadata::new(TriggerKind::Manual, vec![]).with_protected(true);
    revenant::metadata::write(&mut mock, &sidecar, &protected_meta).unwrap();

    let snaps = discover_snapshots(&config, &mock, &toplevel).unwrap();
    let protected = snaps.iter().find(|s| s.id == info.id).unwrap();

    let err = delete_snapshot(&config, &mut mock, &toplevel, protected).unwrap_err();
    match err {
        RevenantError::ProtectedSnapshot { strain, id } => {
            assert_eq!(strain, "default");
            assert_eq!(id, info.id.as_str());
        }
        other => panic!("expected ProtectedSnapshot, got {other:?}"),
    }

    let snap_path = snap_dir.join(&info.id.snapshot_name("@", "default"));
    assert!(mock.contains(&snap_path));
    assert!(read(&mock, &sidecar).unwrap().is_some());

}

#[test]
fn delete_all_strain_skips_protected_and_keeps_going() {
    let config = config_no_efi(&["@"]);
    let toplevel = top();
    let mut mock = setup_mock(&config, &toplevel);

    mock.seed_subvolume(&toplevel.join("@snapshots/@-default-20260316-100000"));
    mock.seed_subvolume(&toplevel.join("@snapshots/@-default-20260316-110000"));
    mock.seed_subvolume(&toplevel.join("@snapshots/@-default-20260316-120000"));

    let snap_dir = snapshot_dir(&config, &toplevel);
    let protected_id = SnapshotId::from_string("20260316-110000").unwrap();
    let sidecar = sidecar_path_for_snapshot(&snap_dir, "default", &protected_id);
    revenant::metadata::write(&mut mock, &sidecar,
        &SnapshotMetadata::new(TriggerKind::Manual, vec![]).with_protected(true),
    )
    .unwrap();

    let outcome = delete_all_strain(&config, &mut mock, &toplevel, "default").unwrap();
    assert_eq!(outcome.deleted.len(), 2);
    assert_eq!(
        outcome.skipped_protected,
        vec!["20260316-110000".to_string()]
    );

    let remaining = discover_snapshots(&config, &mock, &toplevel).unwrap();
    assert_eq!(remaining.len(), 1);
    assert_eq!(remaining[0].id, protected_id);
    assert!(read(&mock, &sidecar).unwrap().is_some());

}

#[test]
fn update_snapshot_metadata_applies_patch_in_place() {
    let config = config_no_efi(&["@"]);
    let toplevel = top();
    let mut mock = MockBackend::new();
    mock.seed_subvolume(&toplevel.join("@"));
    mock.seed_subvolume(&toplevel.join("@snapshots"));

    let info = create_snapshot(
        &config,
        &mut mock,
        &toplevel,
        "default",
        TriggerKind::Manual,
        vec!["original".into()],
    )
    .unwrap();

    let patch = MetadataPatch {
        protected: Some(true),
        message: Some(vec!["edited".into(), "second line".into()]),
    };
    let updated = update_snapshot_metadata(&config, &mut mock, &toplevel, &info, &patch).unwrap();
    assert!(updated.protected);
    assert_eq!(updated.message, vec!["edited", "second line"]);

    let snap_dir = snapshot_dir(&config, &toplevel);
    let sidecar = sidecar_path_for_snapshot(&snap_dir, "default", &info.id);
    let on_disk = read(&mock, &sidecar).unwrap().unwrap();
    assert!(on_disk.protected);
    assert_eq!(on_disk.message, vec!["edited", "second line"]);
    assert_eq!(on_disk.trigger, TriggerKind::Manual);

}

#[test]
fn update_snapshot_metadata_errors_when_sidecar_missing() {
    let config = config_no_efi(&["@"]);
    let toplevel = top();
    let mut mock = setup_mock(&config, &toplevel);
    mock.seed_subvolume(&toplevel.join("@snapshots/@-default-20260316-100000"));

    let snaps = discover_snapshots(&config, &mock, &toplevel).unwrap();
    let info = snaps.into_iter().next().unwrap();
    assert!(info.metadata.is_none());

    let patch = MetadataPatch {
        protected: Some(true),
        message: None,
    };
    let err = update_snapshot_metadata(&config, &mut mock, &toplevel, &info, &patch).unwrap_err();
    assert!(matches!(err, RevenantError::Other(_)));

}

#[test]
fn mod_sidecar_naming_is_stable_under_subvolume_reorder() {

    let config_a = config_no_efi(&["@", "@home"]);
    let config_b = config_no_efi(&["@home", "@"]);
    let toplevel = top();
    let mut mock = MockBackend::new();
    mock.seed_subvolume(&toplevel.join("@"));
    mock.seed_subvolume(&toplevel.join("@home"));
    mock.seed_subvolume(&toplevel.join("@snapshots"));

    let info = create_snapshot(
        &config_a,
        &mut mock,
        &toplevel,
        "default",
        TriggerKind::Manual,
        vec!["anchor-test".into()],
    )
    .unwrap();

    let snaps = discover_snapshots(&config_b, &mock, &toplevel).unwrap();
    assert_eq!(snaps.len(), 1);
    assert_eq!(snaps[0].id, info.id);
    let m = snaps[0]
        .metadata
        .as_ref()
        .expect("metadata must survive subvolume reorder");
    assert_eq!(m.message, vec!["anchor-test".to_string()]);
    assert_eq!(m.trigger, TriggerKind::Manual);

}

#[test]
fn mod_delete_snapshot_removes_sidecar() {
    let config = config_no_efi(&["@"]);
    let toplevel = top();
    let mut mock = MockBackend::new();
    mock.seed_subvolume(&toplevel.join("@"));
    mock.seed_subvolume(&toplevel.join("@snapshots"));

    let info = create_snapshot(
        &config,
        &mut mock,
        &toplevel,
        "default",
        TriggerKind::Manual,
        vec!["m".into()],
    )
    .unwrap();
    let sidecar = toplevel
        .join("@snapshots")
        .join(&format!("default-{}.meta.toml", info.id.as_str()));
    assert!(mock.read_file(&sidecar).unwrap().is_some());

    delete_snapshot(&config, &mut mock, &toplevel, &info).unwrap();
    assert!(
        !mock.read_file(&sidecar).unwrap().is_some(),
        "sidecar must be removed with the snapshot"
    );

}

#[test]
fn mod_resolve_live_parent_pristine_returns_none() {
    let config = config_no_efi(&["@"]);
    let toplevel = top();
    let mut mock = setup_mock(&config, &toplevel);
    assert!(resolve_live_parent(&config, &mock, &toplevel).is_none());
}

#[test]
fn mod_resolve_live_parent_after_snapshot_returns_none() {
    let config = config_no_efi(&["@"]);
    let toplevel = top();
    let mut mock = setup_mock(&config, &toplevel);
    create_snapshot(
        &config,
        &mut mock,
        &toplevel,
        "default",
        TriggerKind::Unknown,
        vec![],
    )
    .unwrap();
    assert!(resolve_live_parent(&config, &mock, &toplevel).is_none());
}

#[test]
fn mod_resolve_live_parent_after_restore_matches() {
    let config = config_no_efi(&["@"]);
    let toplevel = top();
    let mut mock = setup_mock(&config, &toplevel);

    let info = create_snapshot(
        &config,
        &mut mock,
        &toplevel,
        "default",
        TriggerKind::Unknown,
        vec![],
    )
    .unwrap();

    let snap_path = toplevel
        .join("@snapshots")
        .join(&info.id.snapshot_name("@", "default"));
    simulate_restore(&mut mock, &toplevel.join("@"), &snap_path, "20260320-000000");

    let parent = resolve_live_parent(&config, &mock, &toplevel).expect("should resolve");
    assert_eq!(parent.id, info.id);
    assert_eq!(parent.strain, "default");
}

#[test]
fn mod_resolve_live_parent_returns_none_when_parent_snapshot_deleted() {
    let config = config_no_efi(&["@"]);
    let toplevel = top();
    let mut mock = setup_mock(&config, &toplevel);

    let info = create_snapshot(
        &config,
        &mut mock,
        &toplevel,
        "default",
        TriggerKind::Unknown,
        vec![],
    )
    .unwrap();
    let snap_path = toplevel
        .join("@snapshots")
        .join(&info.id.snapshot_name("@", "default"));
    simulate_restore(&mut mock, &toplevel.join("@"), &snap_path, "20260320-000000");

    delete_snapshot(&config, &mut mock, &toplevel, &info).unwrap();

    assert!(resolve_live_parent(&config, &mock, &toplevel).is_none());
}

#[test]
fn mod_resolve_live_parent_picks_correct_strain() {
    let config = config_two_strains(&["@"]);
    let toplevel = top();
    let mut mock = setup_mock(&config, &toplevel);

    let default_snap = create_snapshot(
        &config,
        &mut mock,
        &toplevel,
        "default",
        TriggerKind::Unknown,
        vec![],
    )
    .unwrap();
    let periodic_name = "@-periodic-20260316-150000";
    mock.seed_subvolume(&toplevel.join("@snapshots").join(periodic_name));
    let periodic_path = toplevel.join("@snapshots").join(periodic_name);

    simulate_restore(
        &mut mock,
        &toplevel.join("@"),
        &periodic_path,
        "20260320-000000",
    );

    let parent = resolve_live_parent(&config, &mock, &toplevel).expect("should resolve");
    assert_eq!(parent.strain, "periodic");
    assert_eq!(parent.id.as_str(), "20260316-150000");
    assert_ne!(parent.id, default_snap.id);
}

#[test]
fn mod_snapshot_id_format() {
    let id = SnapshotId::now();
    assert_eq!(id.as_str().len(), ID_LEN_CURRENT);
    assert_eq!(id.as_str().as_bytes()[8], b'-');
    assert_eq!(id.as_str().as_bytes()[15], b'-');
    assert!(id.as_str()[16..].bytes().all(|b| b.is_ascii_digit()));
}

#[test]
fn mod_snapshot_id_parse_current() {
    let id = SnapshotId::from_string("20260316-143022-456").unwrap();
    assert_eq!(id.as_str(), "20260316-143022-456");
}

#[test]
fn mod_snapshot_id_parse_legacy() {
    let id = SnapshotId::from_string("20260316-143022").unwrap();
    assert_eq!(id.as_str(), "20260316-143022");
}

#[test]
fn mod_snapshot_id_invalid() {
    assert!(SnapshotId::from_string("bad").is_err());
    assert!(SnapshotId::from_string("20261301-000000").is_err());
    assert!(SnapshotId::from_string("20260316-143022-abc").is_err());
    assert!(SnapshotId::from_string("20260316-143022_456").is_err());
    assert!(SnapshotId::from_string("20260316-14302").is_err());
    assert!(SnapshotId::from_string("20260316-143022-4567").is_err());
}

#[test]
fn mod_target_parses_strain_and_id() {
    let t: SnapshotTarget = "default@20260316-143022-456".parse().unwrap();
    let SnapshotTarget::Single { strain, id } = t else {
        panic!("expected Single");
    };
    assert_eq!(strain.as_deref(), Some("default"));
    assert_eq!(id.as_str(), "20260316-143022-456");
}

#[test]
fn mod_target_parses_bare_id_unscoped() {
    let t: SnapshotTarget = "20260316-143022-456".parse().unwrap();
    match t {
        SnapshotTarget::Single { strain: None, .. } => {}
        other => panic!("expected unscoped Single, got {other:?}"),
    }
}

#[test]
fn mod_target_parses_bulk_trailing_at() {
    let t: SnapshotTarget = "default@".parse().unwrap();
    assert_eq!(
        t,
        SnapshotTarget::AllInStrain {
            strain: "default".to_string(),
        }
    );
    assert!(t.is_bulk());
}

#[test]
fn mod_target_parses_bulk_all_alias() {
    let t: SnapshotTarget = "default@all".parse().unwrap();
    assert_eq!(
        t,
        SnapshotTarget::AllInStrain {
            strain: "default".to_string(),
        }
    );
}

#[test]
fn mod_target_rejects_empty_strain() {
    let err = "@20260316-143022-456"
        .parse::<SnapshotTarget>()
        .unwrap_err();
    assert!(err.message().contains("missing strain"));
}

#[test]
fn mod_target_rejects_invalid_strain_chars() {
    let err = "bad-name@20260316-143022-456"
        .parse::<SnapshotTarget>()
        .unwrap_err();
    assert!(err.message().contains("invalid strain"), "got: {:?}", err);
}

#[test]
fn mod_target_rejects_bare_non_id() {
    let err = "not-an-id".parse::<SnapshotTarget>().unwrap_err();
    let msg = err.message();
    assert!(
        msg.contains("expected ID, strain@ID, or strain@"),
        "got: {msg}"
    );
}

#[test]
fn mod_target_rejects_invalid_id_in_qualified_form() {
    let err = "default@bogus".parse::<SnapshotTarget>().unwrap_err();
    assert!(err.message().contains("invalid snapshot ID"));
}

#[test]
fn mod_target_display_round_trips() {
    let cases = [
        "default@20260316-143022-456",
        "20260316-143022-456",
        "default@",
    ];
    for s in cases {
        let t: SnapshotTarget = s.parse().unwrap();
        assert_eq!(t.to_text(), s, "round-trip failed for {s:?}");
    }
    let t: SnapshotTarget = "default@all".parse().unwrap();
    assert_eq!(t.to_text(), "default@");
}

#[test]
fn mod_qualified_helper_matches_target_display() {
    let id = SnapshotId::from_string("20260316-143022-456").unwrap();
    let s = qualified("default", &id);
    assert_eq!(s, "default@20260316-143022-456");
    let parsed: SnapshotTarget = s.parse().unwrap();
    assert!(matches!(
        parsed,
        SnapshotTarget::Single {
            strain: Some(_),
            ..
        }
    ));
}

#[test]
fn mod_snapshot_id_orders_legacy_before_same_second_current() {
    let legacy = SnapshotId::from_string("20260316-143022").unwrap();
    let current = SnapshotId::from_string("20260316-143022-000").unwrap();
    assert!(legacy < current);
}

#[test]
fn mod_snapshot_name_with_strain() {
    let id = SnapshotId::from_string("20260316-143022-456").unwrap();
    assert_eq!(
        id.snapshot_name("@", "default"),
        "@-default-20260316-143022-456"
    );
    assert_eq!(
        id.snapshot_name("@boot", "default"),
        "@boot-default-20260316-143022-456"
    );
}

#[test]
fn mod_snapshot_id_created_at_legacy() {
    let id = SnapshotId::from_string("20260316-143022").unwrap();
    let dt = id.created_at().unwrap();
    assert_eq!(
        shown(&dt),
        "2026-03-16 14:30:22.000"
    );
}

#[test]
fn mod_snapshot_id_created_at_current() {
    let id = SnapshotId::from_string("20260316-143022-456").unwrap();
    let dt = id.created_at().unwrap();
    assert_eq!(
        shown(&dt),
        "2026-03-16 14:30:22.456"
    );
}

#[test]
fn mod_extract_trailing_prefers_current_over_legacy() {
    let (id, start) = SnapshotId::extract_trailing("@-default-20260316-143022-456").unwrap();
    assert_eq!(id.as_str(), "20260316-143022-456");
    assert_eq!(start, "@-default-".len());
}

#[test]
fn mod_extract_trailing_falls_back_to_legacy() {
    let (id, start) = SnapshotId::extract_trailing("@-default-20260316-143022").unwrap();
    assert_eq!(id.as_str(), "20260316-143022");
    assert_eq!(start, "@-default-".len());
}

#[test]
fn mod_parse_subvol_name_simple() {
    let (subvol, strain, id) =
        parse_snapshot_subvol_name("@-default-20260316-143022-456").unwrap();
    assert_eq!(subvol, "@");
    assert_eq!(strain, "default");
    assert_eq!(id.as_str(), "20260316-143022-456");
}

#[test]
fn mod_parse_subvol_name_legacy_id() {
    let (subvol, strain, id) =
        parse_snapshot_subvol_name("@home-default-20260316-143022").unwrap();
    assert_eq!(subvol, "@home");
    assert_eq!(strain, "default");
    assert_eq!(id.as_str(), "20260316-143022");
}

#[test]
fn mod_parse_subvol_name_subvol_with_hyphen() {
    let (subvol, strain, _) =
        parse_snapshot_subvol_name("@my-thing-default-20260316-143022-456").unwrap();
    assert_eq!(subvol, "@my-thing");
    assert_eq!(strain, "default");
}

#[test]
fn mod_parse_subvol_name_rejects_garbage() {
    assert!(parse_snapshot_subvol_name("random-thing").is_none());
    assert!(parse_snapshot_subvol_name("20260316-143022").is_none());
    assert!(parse_snapshot_subvol_name("@-default-20260316-bogus").is_none());
    assert!(parse_snapshot_subvol_name("-default-20260316-143022").is_none());
    assert!(parse_snapshot_subvol_name("@--20260316-143022").is_none());
}

#[test]
fn mod_parse_subvol_name_round_trips_snapshot_name() {
    let id = SnapshotId::from_string("20260316-143022-456").unwrap();
    let name = id.snapshot_name("@home", "periodic");
    let (subvol, strain, parsed_id) = parse_snapshot_subvol_name(&name).unwrap();
    assert_eq!(subvol, "@home");
    assert_eq!(strain, "periodic");
    assert_eq!(parsed_id, id);
}

#[test]
fn digit_ids_sort_like_their_instants() {
    let ids = [
        "19991231-235959",
        "19991231-235959-000",
        "19991231-235959-999",
        "20000101-000000",
        "20000229-120000-001",
        "20000301-000000",
        "20261130-235959",
        "20261201-000000",
    ];
    for w in ids.windows(2) {
        let a = SnapshotId::from_string(w[0]).unwrap();
        let b = SnapshotId::from_string(w[1]).unwrap();
        assert!(a < b);
        let (x, y) = (a.created_at().unwrap(), b.created_at().unwrap());
        assert!(!y.before(&x));
    }
}

#[test]
fn names_with_irregular_legacy_ids_are_parsed_back() {
    let id = SnapshotId::from_string("2026 3 1-143022").unwrap();
    let name = id.snapshot_name("@a-b", "default");
    let (subvol, strain, back) = parse_snapshot_subvol_name(&name).unwrap();
    assert_eq!(subvol, "@a-b");
    assert_eq!(strain, "default");
    assert_eq!(back, id);
}

#[test]
fn stamps_with_other_characters_are_refused() {
    for s in ["2026031a-143022", "20260316-14302@", "2026-3-1-143022", "20260316-14302 "] {
        assert!(SnapshotId::from_string(s).is_err(), "{s}");
    }
}

#[test]
fn bulk_references_end_in_at_or_all() {
    for (s, bulk) in [
        ("default@", true),
        ("default@all", true),
        ("default@20260316-143022", false),
        ("20260316-143022-456", false),
    ] {
        assert_eq!(s.parse::<SnapshotTarget>().unwrap().is_bulk(), bulk);
    }
}

#[test]
fn what_lies_in_the_place_of_a_missing_part_is_no_obstacle() {
    let config = config_no_efi(&["@", "@home"]);
    let toplevel = top();
    let mut mock = setup_mock(&config, &toplevel);
    let info = create_snapshot(
        &config,
        &mut mock,
        &toplevel,
        "default",
        TriggerKind::Manual,
        vec![],
    )
    .unwrap();
    let snap_dir = toplevel.join("@snapshots");
    let home = snap_dir.join(&info.id.snapshot_name("@home", "default"));
    mock.delete_subvolume(&home).unwrap();
    mock.seed_subvolume(&home.join("inner"));
    delete_snapshot(&config, &mut mock, &toplevel, &info).unwrap();
    delete_snapshot(&config, &mut mock, &toplevel, &info).unwrap();
    assert!(!mock.contains(&snap_dir.join(&info.id.snapshot_name("@", "default"))));
    assert!(mock.contains(&home.join("inner")));
}
