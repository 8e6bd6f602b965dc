use revenant::backend::mock::MockBackend;
use revenant::backend::FileSystemBackend;
use revenant::error::RevenantError;
use revenant::path::FsPath;

fn p(s: &str) -> FsPath {
    FsPath::new(s)
}

#[test]
fn create_and_lookup() {
    let mut mock = MockBackend::new();
    mock.create_subvolume(&p("/top/@")).unwrap();
    let info = mock.subvolume_info(&p("/top/@")).unwrap();
    assert!(!info.readonly);
    assert_eq!(info.parent_id, 5);
}

#[test]
fn list_returns_direct_children_only() {
    let mut mock = MockBackend::new();
    mock.create_subvolume(&p("/top/@")).unwrap();
    mock.create_subvolume(&p("/top/@home")).unwrap();
    mock.create_subvolume(&p("/top/@snapshots")).unwrap();
    mock.create_subvolume(&p("/top/@snapshots/@-default-20260316-143022")).unwrap();

    let top_children = mock.list_subvolumes(&p("/top")).unwrap();
    assert_eq!(top_children.len(), 3);

    let snap_children = mock.list_subvolumes(&p("/top/@snapshots")).unwrap();
    assert_eq!(snap_children.len(), 1);
}

#[test]
fn ro_snapshot_marks_readonly() {
    let mut mock = MockBackend::new();
    mock.create_subvolume(&p("/top/@")).unwrap();
    mock.create_readonly_snapshot(&p("/top/@"), &p("/top/@-snap")).unwrap();
    let info = mock.subvolume_info(&p("/top/@-snap")).unwrap();
    assert!(info.readonly);
}

#[test]
fn snapshot_of_missing_source_fails() {
    let mut mock = MockBackend::new();
    let err = mock.create_readonly_snapshot(&p("/top/@"), &p("/top/@-snap")).unwrap_err();
    assert!(matches!(err, RevenantError::SubvolumeNotFound(_)));
}

#[test]
fn delete_with_nested_fails() {
    let mut mock = MockBackend::new();
    mock.create_subvolume(&p("/top/@")).unwrap();
    mock.create_subvolume(&p("/top/@/var/lib/portables")).unwrap();
    let err = mock.delete_subvolume(&p("/top/@")).unwrap_err();
    assert!(err.message().contains("ENOTEMPTY"));
}

#[test]
fn delete_leaf_succeeds() {
    let mut mock = MockBackend::new();
    mock.create_subvolume(&p("/top/@")).unwrap();
    mock.delete_subvolume(&p("/top/@")).unwrap();
    assert!(!mock.contains(&p("/top/@")));
}

#[test]
fn set_default_tracked() {
    let mut mock = MockBackend::new();
    mock.create_subvolume(&p("/top/@")).unwrap();
    mock.set_default_subvolume(&p("/top/@")).unwrap();
    assert_eq!(mock.default_subvolume(), Some(p("/top/@")));
}

#[test]
fn all_paths_come_in_order() {
    let mut mock = MockBackend::new();
    mock.seed_subvolume(&p("/top/b"));
    mock.seed_subvolume(&p("/top/a/z"));
    mock.seed_subvolume(&p("/top/a"));
    mock.seed_subvolume(&p("/top/b"));
    let shown: Vec<String> = mock.all_paths().iter().map(|p| p.display()).collect();
    assert_eq!(shown, vec!["/top/a", "/top/a/z", "/top/b"]);
}

#[test]
fn snapshots_of_one_subvolume_share_its_uuid_as_parent() {
    let mut mock = MockBackend::new();
    mock.create_subvolume(&p("/top/@")).unwrap();
    let a = mock.create_readonly_snapshot(&p("/top/@"), &p("/top/a")).unwrap();
    let b = mock.create_writable_snapshot(&p("/top/@"), &p("/top/b")).unwrap();
    let live = mock.subvolume_info(&p("/top/@")).unwrap();
    assert_eq!(a.parent_uuid, Some(live.uuid));
    assert_eq!(b.parent_uuid, Some(live.uuid));
    assert!(a.uuid != b.uuid && a.uuid != live.uuid);
    assert!(!b.readonly);
}

#[test]
fn snapshots_copy_files_and_renames_move_them() {
    let mut mock = MockBackend::new();
    mock.create_subvolume(&p("/top/@")).unwrap();
    mock.write_file(&p("/top/@/etc/hostname"), "one").unwrap();
    mock.create_writable_snapshot(&p("/top/@"), &p("/top/copy")).unwrap();
    mock.write_file(&p("/top/@/etc/hostname"), "two").unwrap();
    assert_eq!(mock.read_file(&p("/top/copy/etc/hostname")).unwrap(), Some("one".to_string()));
    mock.rename_subvolume(&p("/top/copy"), &p("/top/moved")).unwrap();
    assert_eq!(mock.read_file(&p("/top/moved/etc/hostname")).unwrap(), Some("one".to_string()));
    assert_eq!(mock.read_file(&p("/top/copy/etc/hostname")).unwrap(), None);
}

#[test]
fn occupied_places_are_refused() {
    let mut mock = MockBackend::new();
    mock.create_subvolume(&p("/top/@")).unwrap();
    mock.create_subvolume(&p("/top/b")).unwrap();
    assert!(mock.create_subvolume(&p("/top/@")).is_err());
    assert!(mock.create_writable_snapshot(&p("/top/@"), &p("/top/b")).is_err());
    assert!(mock.rename_subvolume(&p("/top/@"), &p("/top/b")).is_err());
    assert!(mock.rename_subvolume(&p("/top/none"), &p("/top/c")).is_err());
    assert!(mock.set_default_subvolume(&p("/top/none")).is_err());
}

#[test]
fn nested_subvolumes_are_found_at_the_top_of_each_branch() {
    let mut mock = MockBackend::new();
    mock.seed_subvolume(&p("/top/@"));
    mock.seed_subvolume(&p("/top/@/var/lib/a"));
    mock.seed_subvolume(&p("/top/@/var/lib/a/deep"));
    let found = mock.find_nested_subvolumes(&p("/top/@")).unwrap();
    assert_eq!(found, vec![p("/top/@/var/lib/a")]);
}

#[test]
fn syncing_a_tree_mirrors_it() {
    let mut mock = MockBackend::new();
    mock.write_file(&p("/boot/loader/a.conf"), "a").unwrap();
    mock.write_file(&p("/top/stage/loader/old.conf"), "old").unwrap();
    mock.sync_tree(&p("/boot"), &p("/top/stage")).unwrap();
    assert_eq!(mock.read_file(&p("/top/stage/loader/a.conf")).unwrap(), Some("a".to_string()));
    assert_eq!(mock.read_file(&p("/top/stage/loader/old.conf")).unwrap(), None);
}

#[test]
fn ids_count_up_and_directories_are_recorded() {
    let mut mock = MockBackend::new();
    assert!(mock.created_dirs().is_empty());
    assert!(mock.all_paths().is_empty());
    mock.create_subvolume(&p("/top/@")).unwrap();
    let snap = mock.create_readonly_snapshot(&p("/top/@"), &p("/top/snap")).unwrap();
    assert_eq!(mock.subvolume_info(&p("/top/@")).unwrap().id, 256);
    assert_eq!(snap.id, 257);
    mock.rename_subvolume(&p("/top/snap"), &p("/top/moved")).unwrap();
    assert_eq!(mock.subvolume_info(&p("/top/moved")).unwrap().id, 257);
    assert!(mock.created_dirs().is_empty());
    mock.create_dir_all(&p("/top/dir")).unwrap();
    assert_eq!(mock.created_dirs(), &vec![p("/top/dir")]);
    assert_eq!(MockBackend::default().created_dirs().len(), 0);
}

#[test]
fn subvolumes_are_listed_by_path() {
    let mut mock = MockBackend::new();
    for name in ["/top/c", "/top/a", "/top/b", "/top/a/inner"] {
        mock.seed_subvolume(&p(name));
    }
    let listed = mock.list_subvolumes(&p("/top")).unwrap();
    let shown: Vec<String> = listed.iter().map(|i| i.path.display()).collect();
    assert_eq!(shown, vec!["/top/a", "/top/b", "/top/c"]);
    assert_eq!(listed[0].id, 257);
}
