use revenant::backend::mock::MockBackend;
use revenant::backend::FileSystemBackend;
use revenant::error::RevenantError;
use revenant::metadata::{
    find_orphaned_sidecars, format_message_items, parse_sidecar_name, read, remove, sidecar_path,
    SnapshotMetadata, TriggerKind, SCHEMA_VERSION,
};
use revenant::path::FsPath;

fn p(s: &str) -> FsPath {
    FsPath::new(s)
}

fn text_at(mock: &MockBackend, path: &FsPath) -> String {
    mock.read_file(path).unwrap().unwrap()
}

#[test]
fn sidecar_path_strain_keyed() {
    let path = sidecar_path(&p("/snap"), "default", "20260316-143022");
    assert_eq!(path, p("/snap/default-20260316-143022.meta.toml"));
}

#[test]
fn parse_sidecar_name_accepts_legacy_id() {
    let (strain, id) = parse_sidecar_name("default-20260316-143022.meta.toml").unwrap();
    assert_eq!(strain, "default");
    assert_eq!(id, "20260316-143022");
}

#[test]
fn parse_sidecar_name_accepts_current_id() {
    let (strain, id) = parse_sidecar_name("default-20260316-143022-456.meta.toml").unwrap();
    assert_eq!(strain, "default");
    assert_eq!(id, "20260316-143022-456");
}

#[test]
fn parse_sidecar_name_accepts_underscore_strain() {
    let (strain, id) = parse_sidecar_name("my_strain-20260316-143022.meta.toml").unwrap();
    assert_eq!(strain, "my_strain");
    assert_eq!(id, "20260316-143022");
}

#[test]
fn parse_sidecar_name_rejects_bad_shapes() {
    assert!(parse_sidecar_name("noext").is_none());
    assert!(parse_sidecar_name("default-bogus.meta.toml").is_none());
    assert!(parse_sidecar_name("default-99999999-999999.meta.toml").is_none());
    assert!(parse_sidecar_name("-20260316-143022.meta.toml").is_none());
    // A strain with a hyphen is not valid.
    assert!(parse_sidecar_name("a-b-20260316-143022.meta.toml").is_none());
    // A suffix that is no number must not be accepted.
    assert!(parse_sidecar_name("default-20260316-143022-abc.meta.toml").is_none());
}

#[test]
fn read_missing_returns_none() {
    let mock = MockBackend::new();
    assert!(read(&mock, &p("/d/does-not-exist.meta.toml")).unwrap().is_none());
}

#[test]
fn round_trip_manual_with_message() {
    let mut mock = MockBackend::new();
    let path = p("/d/x.meta.toml");
    let meta =
        SnapshotMetadata::new(TriggerKind::Manual, vec!["pre-upgrade sanity check".to_string()]);
    revenant::metadata::write(&mut mock, &path, &meta).unwrap();
    let loaded = read(&mock, &path).unwrap().unwrap();
    assert_eq!(loaded.message, vec!["pre-upgrade sanity check".to_string()]);
    assert_eq!(loaded.trigger, TriggerKind::Manual);
    assert_eq!(loaded.schema_version, SCHEMA_VERSION);
    assert_eq!(loaded.created_at, meta.created_at);
}

#[test]
fn round_trip_manual_without_message_omits_field() {
    let mut mock = MockBackend::new();
    let path = p("/d/m.meta.toml");
    let meta = SnapshotMetadata::new(TriggerKind::Manual, vec![]);
    revenant::metadata::write(&mut mock, &path, &meta).unwrap();
    let serialized = text_at(&mock, &path);
    assert!(
        !serialized.contains("message"),
        "empty message must be skipped on serialize, got:\n{}",
        serialized
    );
    let loaded = read(&mock, &path).unwrap().unwrap();
    assert!(loaded.message.is_empty());
    assert_eq!(loaded.trigger, TriggerKind::Manual);
}

#[test]
fn round_trip_pacman_with_packages() {
    let mut mock = MockBackend::new();
    let path = p("/d/p.meta.toml");
    let meta = SnapshotMetadata::new(
        TriggerKind::Pacman,
        vec!["linux".to_string(), "mesa".to_string(), "glibc".to_string()],
    );
    revenant::metadata::write(&mut mock, &path, &meta).unwrap();
    let loaded = read(&mock, &path).unwrap().unwrap();
    assert_eq!(loaded.trigger, TriggerKind::Pacman);
    assert_eq!(
        loaded.message,
        vec!["linux".to_string(), "mesa".to_string(), "glibc".to_string()]
    );
}

#[test]
fn round_trip_systemd_boot() {
    let mut mock = MockBackend::new();
    let path = p("/d/s.meta.toml");
    let meta = SnapshotMetadata::new(
        TriggerKind::SystemdBoot,
        vec!["revenant-boot.service".to_string()],
    );
    revenant::metadata::write(&mut mock, &path, &meta).unwrap();
    let loaded = read(&mock, &path).unwrap().unwrap();
    assert_eq!(loaded.trigger, TriggerKind::SystemdBoot);
    assert_eq!(loaded.message, vec!["revenant-boot.service".to_string()]);
}

#[test]
fn round_trip_protected_true_persists_field() {
    let mut mock = MockBackend::new();
    let path = p("/d/prot.meta.toml");
    let meta = SnapshotMetadata::new(TriggerKind::Manual, vec!["baseline".to_string()])
        .with_protected(true);
    revenant::metadata::write(&mut mock, &path, &meta).unwrap();
    let serialized = text_at(&mock, &path);
    assert!(
        serialized.contains("protected = true"),
        "protected=true must appear in the TOML, got:\n{}",
        serialized
    );
    let loaded = read(&mock, &path).unwrap().unwrap();
    assert!(loaded.protected);
    assert_eq!(loaded.message, vec!["baseline".to_string()]);
}

#[test]
fn round_trip_protected_false_omits_field() {
    let mut mock = MockBackend::new();
    let path = p("/d/unp.meta.toml");
    let meta = SnapshotMetadata::new(TriggerKind::Manual, vec!["note".to_string()]);
    revenant::metadata::write(&mut mock, &path, &meta).unwrap();
    let serialized = text_at(&mock, &path);
    assert!(
        !serialized.contains("protected"),
        "default-false protected must be skipped on serialize, got:\n{}",
        serialized
    );
    let loaded = read(&mock, &path).unwrap().unwrap();
    assert!(!loaded.protected);
}

#[test]
fn read_old_sidecar_without_protected_defaults_to_false() {
    let mut mock = MockBackend::new();
    let path = p("/d/legacy.meta.toml");
    let text = r#"
schema_version = 1
created_at = "2026-04-14T14:05:01+02:00"
trigger = "manual"
message = ["legacy"]
"#;
    mock.write_file(&path, text).unwrap();
    let loaded = read(&mock, &path).unwrap().unwrap();
    assert!(!loaded.protected);
    assert_eq!(loaded.message, vec!["legacy".to_string()]);
    assert_eq!(loaded.created_at.offset, 7200);
}

#[test]
fn round_trip_restore_with_source() {
    let mut mock = MockBackend::new();
    let path = p("/d/r.meta.toml");
    let meta =
        SnapshotMetadata::new(TriggerKind::Restore, vec!["default@20260420-230031".to_string()]);
    revenant::metadata::write(&mut mock, &path, &meta).unwrap();
    let loaded = read(&mock, &path).unwrap().unwrap();
    assert_eq!(loaded.trigger, TriggerKind::Restore);
    assert_eq!(loaded.message, vec!["default@20260420-230031".to_string()]);
}

#[test]
fn read_rejects_malformed_toml() {
    let mut mock = MockBackend::new();
    let path = p("/d/bad.meta.toml");
    mock.write_file(&path, "this is = not [valid toml").unwrap();
    assert!(read(&mock, &path).is_err());
}

#[test]
fn read_tolerates_unknown_fields() {
    let mut mock = MockBackend::new();
    let path = p("/d/fwd.meta.toml");
    let text = r#"
schema_version = 99
created_at = "2026-04-14T14:05:01+02:00"
trigger = "manual"
message = ["hello"]
future_field = "ignored"
"#;
    mock.write_file(&path, text).unwrap();
    let loaded = read(&mock, &path).unwrap().unwrap();
    assert_eq!(loaded.message, vec!["hello".to_string()]);
    assert_eq!(loaded.trigger, TriggerKind::Manual);
}

#[test]
fn remove_missing_is_ok() {
    let mut mock = MockBackend::new();
    remove(&mut mock, &p("/d/gone.meta.toml")).unwrap();
}

#[test]
fn remove_existing_deletes() {
    let mut mock = MockBackend::new();
    let path = p("/d/r.meta.toml");
    revenant::metadata::write(&mut mock, &path, &SnapshotMetadata::new(TriggerKind::Manual, vec![])).unwrap();
    assert!(mock.read_file(&path).unwrap().is_some());
    remove(&mut mock, &path).unwrap();
    assert!(mock.read_file(&path).unwrap().is_none());
}

#[test]
fn find_orphans_uses_strain_id_matching() {
    let dir = p("/d");
    let mut mock = MockBackend::new();
    mock.seed_subvolume(&dir);
    // A part under any subvolume name pairs with the sidecar.
    mock.seed_subvolume(&dir.join("@home-default-20260316-143022"));
    let text =
        "schema_version = 1\ncreated_at = \"2026-04-14T14:05:01+02:00\"\ntrigger = \"manual\"\n";
    mock.write_file(&dir.join("default-20260316-143022.meta.toml"), text).unwrap();
    mock.write_file(&dir.join("default-20260101-000000.meta.toml"), text).unwrap();

    let found = find_orphaned_sidecars(&dir, &mock).unwrap();
    assert_eq!(found.len(), 1);
    assert_eq!(found[0].name, "default-20260101-000000.meta.toml");
}

#[test]
fn triggers_keep_their_wire_names() {
    for (kind, name) in [
        (TriggerKind::Manual, "manual"),
        (TriggerKind::Pacman, "pacman"),
        (TriggerKind::SystemdBoot, "systemd-boot"),
        (TriggerKind::SystemdPeriodic, "systemd-periodic"),
        (TriggerKind::Restore, "restore"),
        (TriggerKind::Unknown, "unknown"),
    ] {
        assert_eq!(kind.as_wire_str(), name);
        assert_eq!(TriggerKind::from_wire_str(name), Some(kind));
    }
    assert_eq!(TriggerKind::from_wire_str("cron"), None);
    assert_eq!(TriggerKind::default(), TriggerKind::Unknown);
}

#[test]
fn message_items_are_joined() {
    assert_eq!(format_message_items(&vec![]), None);
    assert_eq!(
        format_message_items(&vec!["a".to_string(), "b".to_string()]),
        Some("a, b".to_string())
    );
}

#[test]
fn notes_with_any_characters_are_read_back() {
    let notes: Vec<String> = vec![
        "two\nlines".to_string(),
        "tab\there".to_string(),
        "\r\n".to_string(),
        "\u{0}\u{7}\u{1b}\u{7f}".to_string(),
        "\"\"\" and ''' and \\".to_string(),
        "\"\"\"\"\"\n'''''".to_string(),
        "\n".to_string(),
        String::new(),
    ];
    let mut mock = MockBackend::new();
    let path = p("/snap/x.meta.toml");
    let meta = SnapshotMetadata::new(TriggerKind::Manual, notes.clone());
    revenant::metadata::write(&mut mock, &path, &meta).unwrap();
    let back = read(&mock, &path).unwrap().unwrap();
    assert_eq!(back.message, notes);
    assert_eq!(back.schema_version, SCHEMA_VERSION);
}

#[test]
fn notes_with_a_long_run_of_quotes_are_refused() {
    let path = p("/snap/x.meta.toml");
    for quote in ["\"", "'"] {
        let mut mock = MockBackend::new();
        let fits = SnapshotMetadata::new(TriggerKind::Manual, vec![quote.repeat(255)]);
        revenant::metadata::write(&mut mock, &path, &fits).unwrap();
        assert_eq!(read(&mock, &path).unwrap().unwrap().message, vec![quote.repeat(255)]);
        let split = format!("{}-{}", quote.repeat(255), quote.repeat(255));
        let two = SnapshotMetadata::new(TriggerKind::Manual, vec![split.clone()]);
        revenant::metadata::write(&mut mock, &path, &two).unwrap();
        assert_eq!(read(&mock, &path).unwrap().unwrap().message, vec![split.clone()]);
        let long = SnapshotMetadata::new(
            TriggerKind::Manual,
            vec!["fine".to_string(), format!("a{}b", quote.repeat(256))],
        );
        let err = revenant::metadata::write(&mut mock, &path, &long).unwrap_err();
        assert!(matches!(err, RevenantError::Other(_)));
        // What was written before is still there.
        assert_eq!(read(&mock, &path).unwrap().unwrap().message, vec![split]);
    }
}

#[test]
fn a_trigger_may_be_written_as_a_table() {
    let path = p("/snap/x.meta.toml");
    let mut mock = MockBackend::new();
    let time = "created_at = \"2026-03-16T14:30:22+01:00\"\n";
    for value in ["\"pacman\"", "{ pacman = {} }", "{ pacman = [] }"] {
        mock.write_file(&path, &format!("{}trigger = {}\n", time, value)).unwrap();
        assert_eq!(read(&mock, &path).unwrap().unwrap().trigger, TriggerKind::Pacman);
    }
    for value in ["{}", "{ pacman = 1 }", "{ other = {} }", "{ pacman = {}, manual = {} }", "[]"] {
        mock.write_file(&path, &format!("{}trigger = {}\n", time, value)).unwrap();
        assert!(read(&mock, &path).is_err(), "{}", value);
    }
}
