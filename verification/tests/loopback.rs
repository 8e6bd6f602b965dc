use revenant::backend::mock::MockBackend;
use revenant::backend::FileSystemBackend;
use revenant::cleanup::recover_orphaned_nested_subvols;
use revenant::config::Config;
use revenant::error::RevenantError;
use revenant::metadata::TriggerKind;
use revenant::path::FsPath;
use revenant::restore::restore_snapshot;
use revenant::snapshot::{create_snapshot, find_snapshot, SnapshotId, SnapshotInfo};

fn mount() -> FsPath {
    FsPath::new("/mnt/test")
}

fn text(fs: &MockBackend, path: &FsPath) -> String {
    fs.read_file(path).unwrap().unwrap()
}

#[test]
fn probe_recognises_btrfs() {
    assert!(MockBackend::new().probe(&mount()).unwrap());
}

#[test]
fn create_subvolume_then_inspect() {
    let mut fs = MockBackend::new();
    let p = mount().join("@root");
    fs.create_subvolume(&p).unwrap();
    let info = fs.subvolume_info(&p).unwrap();
    assert!(!info.readonly);
    assert_eq!(info.path, p);
    assert_ne!(info.id, 0);
}

#[test]
fn list_subvolumes_returns_direct_children() {
    let mut fs = MockBackend::new();
    fs.create_subvolume(&mount().join("@a")).unwrap();
    fs.create_subvolume(&mount().join("@b")).unwrap();
    fs.create_subvolume(&mount().join("@c")).unwrap();
    let listed = fs.list_subvolumes(&mount()).unwrap();
    let mut names: Vec<String> =
        listed.iter().map(|s| s.path.file_name().unwrap().to_string()).collect();
    names.sort();
    assert_eq!(names, vec!["@a", "@b", "@c"]);
}

#[test]
fn readonly_snapshot_is_readonly() {
    let mut fs = MockBackend::new();
    let (src, snap) = (mount().join("@"), mount().join("@snap"));
    fs.create_subvolume(&src).unwrap();
    fs.create_readonly_snapshot(&src, &snap).unwrap();
    assert!(fs.subvolume_info(&snap).unwrap().readonly);
}

#[test]
fn writable_snapshot_is_writable() {
    let mut fs = MockBackend::new();
    let (src, snap) = (mount().join("@"), mount().join("@snap-rw"));
    fs.create_subvolume(&src).unwrap();
    fs.create_writable_snapshot(&src, &snap).unwrap();
    assert!(!fs.subvolume_info(&snap).unwrap().readonly);
    fs.write_file(&snap.join("touch.txt"), "ok").unwrap();
}

#[test]
fn snapshot_captures_content_at_creation_time() {
    let mut fs = MockBackend::new();
    let (src, snap) = (mount().join("@"), mount().join("@snap"));
    fs.create_subvolume(&src).unwrap();
    fs.write_file(&src.join("file.txt"), "version 1").unwrap();
    fs.create_readonly_snapshot(&src, &snap).unwrap();
    fs.write_file(&src.join("file.txt"), "version 2").unwrap();
    assert_eq!(text(&fs, &snap.join("file.txt")), "version 1");
}

#[test]
fn delete_readonly_subvolume_clears_flag_first() {
    let mut fs = MockBackend::new();
    let (src, snap) = (mount().join("@"), mount().join("@ro-snap"));
    fs.create_subvolume(&src).unwrap();
    fs.create_readonly_snapshot(&src, &snap).unwrap();
    fs.delete_subvolume(&snap).unwrap();
    assert!(fs.subvolume_info(&snap).is_err());
}

#[test]
fn delete_writable_subvolume() {
    let mut fs = MockBackend::new();
    let p = mount().join("@");
    fs.create_subvolume(&p).unwrap();
    fs.delete_subvolume(&p).unwrap();
    assert!(fs.subvolume_info(&p).is_err());
}

#[test]
fn rename_subvolume_moves_directory_entry() {
    let mut fs = MockBackend::new();
    let (a, b) = (mount().join("@a"), mount().join("@b"));
    fs.create_subvolume(&a).unwrap();
    fs.write_file(&a.join("marker"), "hi").unwrap();
    fs.rename_subvolume(&a, &b).unwrap();
    assert!(fs.subvolume_info(&a).is_err());
    let info = fs.subvolume_info(&b).unwrap();
    assert_eq!(info.path, b);
    assert!(!info.readonly);
    assert_eq!(text(&fs, &b.join("marker")), "hi");
}

#[test]
fn set_default_subvolume_does_not_error() {
    let mut fs = MockBackend::new();
    let p = mount().join("@");
    fs.create_subvolume(&p).unwrap();
    fs.set_default_subvolume(&p).unwrap();
    assert_eq!(fs.default_subvolume(), Some(p));
}

#[test]
fn find_nested_subvolumes_walks_real_tree() {
    let mut fs = MockBackend::new();
    let root = mount().join("@");
    fs.create_subvolume(&root).unwrap();
    fs.create_dir_all(&root.join("var/lib")).unwrap();
    fs.create_subvolume(&root.join("var/lib/portables")).unwrap();
    fs.create_subvolume(&root.join("var/lib/machines")).unwrap();
    fs.create_dir_all(&root.join("home/user")).unwrap();
    let nested = fs.find_nested_subvolumes(&root).unwrap();
    assert_eq!(nested.len(), 2);
    assert!(nested.iter().any(|p| p.file_name() == Some("portables")));
    assert!(nested.iter().any(|p| p.file_name() == Some("machines")));
}

/// A strain without EFI over `@`, with snapshots in `@snapshots`.
fn e2e_config() -> Config {
    r#"
[sys]
rootfs_subvol = "@"
snapshot_subvol = "@snapshots"

[sys.rootfs]
backend = "btrfs"
device_uuid = "00000000-0000-0000-0000-000000000000"

[sys.efi]
enabled = false

[sys.bootloader]
backend = "systemd-boot"

[strain.default]
subvolumes = ["@"]

[strain.default.retain]
last = 5
"#
    .parse()
    .unwrap()
}

fn take(config: &Config, fs: &mut MockBackend) -> SnapshotInfo {
    create_snapshot(config, fs, &mount(), "default", TriggerKind::Manual, vec![]).unwrap()
}

fn restore(config: &Config, fs: &mut MockBackend, id: &SnapshotId) {
    let info = find_snapshot(config, fs, &mount(), id, Some("default")).unwrap();
    restore_snapshot(config, fs, &mount(), &info).unwrap();
}

#[test]
fn e2e_create_snapshot_against_real_backend() {
    let config = e2e_config();
    let mut fs = MockBackend::new();
    fs.create_subvolume(&mount().join("@")).unwrap();
    fs.write_file(&mount().join("@/hello.txt"), "world").unwrap();
    let info = take(&config, &mut fs);
    assert_eq!(info.strain, "default");
    assert_eq!(info.subvolumes, vec!["@".to_string()]);
    let snap = mount().join("@snapshots").join(&info.id.snapshot_name("@", "default"));
    assert!(fs.subvolume_info(&snap).unwrap().readonly);
    assert_eq!(text(&fs, &snap.join("hello.txt")), "world");
}

#[test]
fn e2e_restore_rolls_back_live_state() {
    let config = e2e_config();
    let mut fs = MockBackend::new();
    let root = mount().join("@");
    fs.create_subvolume(&root).unwrap();
    fs.write_file(&root.join("state.txt"), "before").unwrap();
    let snap = take(&config, &mut fs);
    fs.write_file(&root.join("state.txt"), "after").unwrap();
    assert_eq!(text(&fs, &root.join("state.txt")), "after");
    restore(&config, &mut fs, &snap.id);
    assert_eq!(text(&fs, &root.join("state.txt")), "before");
    let listed = fs.list_subvolumes(&mount()).unwrap();
    let marker = listed
        .iter()
        .find(|s| s.path.file_name().is_some_and(|n| n.starts_with("@-DELETE-")))
        .unwrap();
    assert_eq!(text(&fs, &marker.path.join("state.txt")), "after");
}

#[test]
fn e2e_restore_preserves_nested_subvol_data() {
    let config = e2e_config();
    let mut fs = MockBackend::new();
    let root = mount().join("@");
    fs.create_subvolume(&root).unwrap();
    fs.write_file(&root.join("state.txt"), "before").unwrap();
    fs.create_dir_all(&root.join("var/lib")).unwrap();
    let nested = root.join("var/lib/portables");
    fs.create_subvolume(&nested).unwrap();
    fs.write_file(&nested.join("data.txt"), "v1").unwrap();
    let snap = take(&config, &mut fs);
    fs.write_file(&root.join("state.txt"), "after").unwrap();
    fs.write_file(&nested.join("data.txt"), "v2").unwrap();
    restore(&config, &mut fs, &snap.id);
    assert_eq!(text(&fs, &root.join("state.txt")), "before");
    assert!(!fs.subvolume_info(&nested).unwrap().readonly);
    assert_eq!(text(&fs, &nested.join("data.txt")), "v2");
}

#[test]
fn e2e_restore_creates_parent_path_for_nested_added_after_snapshot() {
    let config = e2e_config();
    let mut fs = MockBackend::new();
    let root = mount().join("@");
    fs.create_subvolume(&root).unwrap();
    fs.write_file(&root.join("state.txt"), "before").unwrap();
    let snap = take(&config, &mut fs);
    fs.create_dir_all(&root.join("var/lib")).unwrap();
    let nested = root.join("var/lib/portables");
    fs.create_subvolume(&nested).unwrap();
    fs.write_file(&nested.join("data.txt"), "later").unwrap();
    fs.write_file(&root.join("state.txt"), "after").unwrap();
    restore(&config, &mut fs, &snap.id);
    assert_eq!(text(&fs, &root.join("state.txt")), "before");
    assert!(fs.subvolume_info(&nested).is_ok());
    assert_eq!(text(&fs, &nested.join("data.txt")), "later");
}

#[test]
fn e2e_recovery_hook_rescues_orphaned_nested_from_delete_marker() {
    let config = e2e_config();
    let mut fs = MockBackend::new();
    let root = mount().join("@");
    fs.create_subvolume(&root).unwrap();
    fs.create_dir_all(&root.join("var/lib")).unwrap();
    fs.create_subvolume(&root.join("var/lib/portables")).unwrap();
    fs.write_file(&root.join("var/lib/portables/payload"), "important").unwrap();
    // An interrupted restore leaves the nested subvolume in the marker.
    let marker = mount().join("@-DELETE-20260101-120000");
    fs.rename_subvolume(&root, &marker).unwrap();
    fs.create_subvolume(&root).unwrap();
    assert!(fs.subvolume_info(&marker.join("var/lib/portables")).is_ok());
    assert!(fs.subvolume_info(&root.join("var/lib/portables")).is_err());
    let recovered = recover_orphaned_nested_subvols(&config, &mut fs, &mount()).unwrap();
    assert_eq!(recovered, 1);
    assert!(fs.subvolume_info(&root.join("var/lib/portables")).is_ok());
    assert!(fs.subvolume_info(&marker.join("var/lib/portables")).is_err());
    assert_eq!(text(&fs, &root.join("var/lib/portables/payload")), "important");
    assert!(fs.subvolume_info(&marker).is_ok());
}

#[test]
fn e2e_restore_rejects_incomplete_snapshot() {
    let config = e2e_config();
    let mut fs = MockBackend::new();
    fs.create_subvolume(&mount().join("@")).unwrap();
    fs.create_subvolume(&mount().join("@snapshots")).unwrap();
    let bogus = SnapshotInfo {
        id: SnapshotId::from_string("20990101-000000").unwrap(),
        strain: "default".to_string(),
        subvolumes: vec!["@".to_string()],
        efi_synced: false,
        metadata: None,
    };
    let err = restore_snapshot(&config, &mut fs, &mount(), &bogus).unwrap_err();
    assert!(matches!(err, RevenantError::IncompleteSnapshot { .. }));
    assert!(fs.subvolume_info(&mount().join("@")).is_ok());
}
