use revenant::backend::mock::MockBackend;
use revenant::backend::FileSystemBackend;
use revenant::check::{
    check_config_file, find_nested_subvolumes, find_orphaned_sidecars, find_orphaned_snapshots,
    parse_snapshot_name, Finding, Severity,
};
use revenant::config::Config;
use revenant::path::FsPath;
use revenant::preflight::{
    blocking_summary, find_active_nspawn_machines, preflight_restore, CHECK_ACTIVE_NSPAWN_MACHINES,
};

fn config_one_strain(subvols: &[&str]) -> Config {
    let subvol_list = subvols.iter().map(|s| format!("\"{}\"", s)).collect::<Vec<_>>().join(", ");
    let toml = format!(
        r#"
[sys]
rootfs_subvol = "@"

[sys.rootfs]
backend = "btrfs"
device_uuid = "12345678-1234-1234-1234-123456789abc"

[sys.efi]
enabled = false

[sys.bootloader]
backend = "systemd-boot"

[strain.default]
subvolumes = [{}]
"#,
        subvol_list
    );
    toml.parse().unwrap()
}

fn top() -> FsPath {
    FsPath::new("/top")
}

fn setup_mock(config: &Config) -> MockBackend {
    let mut mock = MockBackend::new();
    for entry in config.strain.entries() {
        for sv in &entry.config.subvolumes {
            let p = top().join(sv);
            if !mock.contains(&p) {
                mock.seed_subvolume(&p);
            }
        }
    }
    mock.seed_subvolume(&top().join(&config.sys.snapshot_subvol));
    mock
}

fn seed_in_snap_dir(mock: &mut MockBackend, config: &Config, name: &str) {
    mock.seed_subvolume(&top().join(&config.sys.snapshot_subvol).join(name));
}

fn write_sidecar(mock: &mut MockBackend, config: &Config, stem: &str) {
    let path = top().join(&config.sys.snapshot_subvol).join(&format!("{}.meta.toml", stem));
    mock.write_file(
        &path,
        "schema_version = 1\ncreated_at = \"2026-04-14T14:05:01+02:00\"\ntrigger = \"manual\"\n",
    )
    .unwrap();
}

#[test]
fn orphans_empty_when_snap_dir_missing() {
    let config = config_one_strain(&["@"]);
    let mock = MockBackend::new();
    let findings = find_orphaned_snapshots(&config, &mock, &top()).unwrap();
    assert!(findings.is_empty());
}

#[test]
fn orphans_empty_when_all_known() {
    let config = config_one_strain(&["@"]);
    let mut mock = setup_mock(&config);
    seed_in_snap_dir(&mut mock, &config, "@-default-20260316-143022");
    seed_in_snap_dir(&mut mock, &config, "@-default-20260317-143022");

    let findings = find_orphaned_snapshots(&config, &mock, &top()).unwrap();
    assert!(findings.is_empty(), "expected no findings, got: {:?}", findings);
}

#[test]
fn orphans_unknown_strain_flagged() {
    let config = config_one_strain(&["@"]);
    let mut mock = setup_mock(&config);
    seed_in_snap_dir(&mut mock, &config, "@-removed-20260316-143022");

    let findings = find_orphaned_snapshots(&config, &mock, &top()).unwrap();
    assert_eq!(findings.len(), 1);
    assert_eq!(findings[0].check, "orphaned-snapshot");
    assert_eq!(findings[0].severity, Severity::Warning);
    assert!(findings[0].message.contains("unknown strain 'removed'"));
}

#[test]
fn orphans_known_strain_unknown_subvol_flagged() {
    let config = config_one_strain(&["@"]);
    let mut mock = setup_mock(&config);
    seed_in_snap_dir(&mut mock, &config, "@home-default-20260316-143022");

    let findings = find_orphaned_snapshots(&config, &mock, &top()).unwrap();
    assert_eq!(findings.len(), 1);
    assert!(
        findings[0].message.contains("strain 'default'")
            && findings[0].message.contains("'@home'"),
        "unexpected message: {}",
        findings[0].message
    );
}

#[test]
fn orphans_ignore_delete_marker() {
    let config = config_one_strain(&["@"]);
    let mut mock = setup_mock(&config);
    seed_in_snap_dir(&mut mock, &config, "@-DELETE-20260316-143022");

    let findings = find_orphaned_snapshots(&config, &mock, &top()).unwrap();
    assert!(findings.is_empty(), "DELETE marker should not be flagged");
}

#[test]
fn orphans_ignore_unrelated_entries() {
    let config = config_one_strain(&["@"]);
    let mut mock = setup_mock(&config);
    seed_in_snap_dir(&mut mock, &config, "random-directory");
    seed_in_snap_dir(&mut mock, &config, "@-default-bogus");
    seed_in_snap_dir(&mut mock, &config, "definitely-not-a-snapshot");

    let findings = find_orphaned_snapshots(&config, &mock, &top()).unwrap();
    assert!(findings.is_empty(), "non-parseable names should be ignored: {:?}", findings);
}

#[test]
fn orphans_findings_sorted() {
    let config = config_one_strain(&["@"]);
    let mut mock = setup_mock(&config);
    seed_in_snap_dir(&mut mock, &config, "@-zremoved-20260316-143022");
    seed_in_snap_dir(&mut mock, &config, "@-aremoved-20260316-143022");
    seed_in_snap_dir(&mut mock, &config, "@-mremoved-20260316-143022");

    let findings = find_orphaned_snapshots(&config, &mock, &top()).unwrap();
    assert_eq!(findings.len(), 3);
    // Sorted by message: the entry's name comes first in each.
    assert!(findings[0].message.starts_with("@-aremoved-"));
    assert!(findings[1].message.starts_with("@-mremoved-"));
    assert!(findings[2].message.starts_with("@-zremoved-"));
}

#[test]
fn sidecars_empty_when_snap_dir_missing() {
    let config = config_one_strain(&["@"]);
    let mock = MockBackend::new();
    let findings = find_orphaned_sidecars(&config, &mock, &top()).unwrap();
    assert!(findings.is_empty());
}

#[test]
fn sidecars_ignored_when_subvol_present() {
    let config = config_one_strain(&["@"]);
    let mut mock = setup_mock(&config);
    seed_in_snap_dir(&mut mock, &config, "@-default-20260316-143022");
    write_sidecar(&mut mock, &config, "default-20260316-143022");

    let findings = find_orphaned_sidecars(&config, &mock, &top()).unwrap();
    assert!(findings.is_empty(), "got: {:?}", findings);
}

#[test]
fn sidecar_without_subvol_flagged() {
    let config = config_one_strain(&["@"]);
    let mut mock = setup_mock(&config);
    // A sidecar whose subvolume was deleted out from under it.
    write_sidecar(&mut mock, &config, "default-20260316-143022");

    let findings = find_orphaned_sidecars(&config, &mock, &top()).unwrap();
    assert_eq!(findings.len(), 1);
    assert_eq!(findings[0].check, "orphaned-sidecar");
    assert_eq!(findings[0].severity, Severity::Warning);
    assert!(
        findings[0].message.starts_with("default-20260316-143022.meta.toml"),
        "unexpected message: {}",
        findings[0].message
    );
}

#[test]
fn sidecars_ignore_non_sidecar_files() {
    let config = config_one_strain(&["@"]);
    let mut mock = setup_mock(&config);
    let snap_dir = top().join(&config.sys.snapshot_subvol);
    mock.write_file(&snap_dir.join("README"), "hello").unwrap();
    mock.write_file(&snap_dir.join("x.toml"), "y = 1").unwrap();

    let findings = find_orphaned_sidecars(&config, &mock, &top()).unwrap();
    assert!(findings.is_empty(), "got: {:?}", findings);
}

#[test]
fn nested_subvolumes_are_reported_with_their_place() {
    let config = config_one_strain(&["@"]);
    let mut mock = setup_mock(&config);
    assert!(find_nested_subvolumes(&config, &mock, &top()).is_empty());
    mock.seed_subvolume(&top().join("@/var/lib/portables"));
    let findings = find_nested_subvolumes(&config, &mock, &top());
    assert_eq!(findings.len(), 1);
    assert_eq!(findings[0].severity, Severity::Info);
    assert!(findings[0].message.contains("var/lib/portables"), "{}", findings[0].message);
}

#[test]
fn the_configuration_file_is_checked() {
    let mut mock = MockBackend::new();
    let path = FsPath::new("/etc/revenant/config.toml");
    let findings = check_config_file(&mock, &path);
    assert_eq!(findings.len(), 1);
    assert_eq!(findings[0].check, "config-missing");
    assert_eq!(
        findings[0].message,
        "configuration file not found: /etc/revenant/config.toml"
    );
    mock.write_file(&path, "nonsense [").unwrap();
    let findings = check_config_file(&mock, &path);
    assert_eq!(findings.len(), 1);
    assert_eq!(findings[0].check, "config-invalid");
    assert!(findings[0]
        .message
        .starts_with("failed to load /etc/revenant/config.toml: "));
    let good = "[sys]\nrootfs_subvol = \"@\"\n[sys.rootfs]\ndevice_uuid = \"12345678-1234-1234-1234-123456789abc\"\n[sys.efi]\nenabled = false\n[sys.bootloader]\nbackend = \"grub\"\n[strain.default]\nsubvolumes = [\"@\"]\n";
    mock.write_file(&path, good).unwrap();
    assert!(check_config_file(&mock, &path).is_empty());
}

#[test]
fn parse_simple_name_legacy_id() {
    let p = parse_snapshot_name("@-default-20260316-143022").unwrap();
    assert_eq!(p.subvol, "@");
    assert_eq!(p.strain, "default");
    assert_eq!(p.id.as_str(), "20260316-143022");
}

#[test]
fn parse_simple_name_current_id() {
    let p = parse_snapshot_name("@-default-20260316-143022-456").unwrap();
    assert_eq!(p.subvol, "@");
    assert_eq!(p.strain, "default");
    assert_eq!(p.id.as_str(), "20260316-143022-456");
}

#[test]
fn parse_subvol_with_hyphen() {
    let p = parse_snapshot_name("@var-log-default-20260316-143022").unwrap();
    assert_eq!(p.subvol, "@var-log");
    assert_eq!(p.strain, "default");
}

#[test]
fn parse_strain_with_underscore() {
    let p = parse_snapshot_name("@-my_strain-20260316-143022").unwrap();
    assert_eq!(p.strain, "my_strain");
}

#[test]
fn parse_rejects_non_snapshot() {
    assert!(parse_snapshot_name("random-directory").is_none());
    assert!(parse_snapshot_name("@-default").is_none());
    assert!(parse_snapshot_name("@-default-99999999-999999").is_none());
    // No subvolume part:
    assert!(parse_snapshot_name("-default-20260316-143022").is_none());
    // No strain part:
    assert!(parse_snapshot_name("@--20260316-143022").is_none());
}

#[test]
fn parse_rejects_strain_with_hyphen() {
    // The rightmost split gives the strain "c": a hyphen in a strain cannot
    // be told from a hyphen in a subvolume.
    let p = parse_snapshot_name("@a-b-c-20260316-143022").unwrap();
    assert_eq!(p.subvol, "@a-b");
    assert_eq!(p.strain, "c");
}

#[test]
fn parse_delete_marker() {
    let p = parse_snapshot_name("@-DELETE-20260316-143022").unwrap();
    assert_eq!(p.strain, "DELETE");
}

#[test]
fn finding_builders() {
    let f = Finding::warning("c", "msg".to_string()).with_hint("do x".to_string());
    assert_eq!(f.severity, Severity::Warning);
    assert_eq!(f.check, "c");
    assert_eq!(f.message, "msg");
    assert_eq!(f.hint.as_deref(), Some("do x"));
}

#[test]
fn severities_have_labels() {
    assert_eq!(Severity::Info.label(), "INFO");
    assert_eq!(Severity::Warning.label(), "WARN");
    assert_eq!(Severity::Error.label(), "ERROR");
    assert_eq!(Finding::info("c", "m".to_string()).severity, Severity::Info);
    assert_eq!(Finding::error("c", "m".to_string()).severity, Severity::Error);
}

fn names(v: &[&str]) -> Vec<String> {
    v.iter().map(|s| s.to_string()).collect()
}

#[test]
fn no_runtime_dir_yields_no_findings() {
    // A directory that does not exist lists nothing.
    let mock = MockBackend::new();
    let listed = mock.list_files(&FsPath::new("/run/systemd/machines")).unwrap();
    assert!(find_active_nspawn_machines(&listed).is_empty());
}

#[test]
fn empty_runtime_dir_yields_no_findings() {
    let findings = find_active_nspawn_machines(&names(&[]));
    assert!(findings.is_empty(), "got: {:?}", findings);
}

#[test]
fn populated_runtime_dir_yields_one_error_finding() {
    let findings = find_active_nspawn_machines(&names(&["debian-test", "arch-build"]));
    assert_eq!(findings.len(), 1);
    let f = &findings[0];
    assert_eq!(f.severity, Severity::Error);
    assert_eq!(f.check, CHECK_ACTIVE_NSPAWN_MACHINES);
    assert!(
        f.message.contains("arch-build, debian-test"),
        "expected sorted machine list in message, got: {}",
        f.message
    );
    assert!(f.hint.is_some(), "expected hint on the finding");
}

#[test]
fn finding_carries_stable_check_id() {
    let findings = find_active_nspawn_machines(&names(&["c"]));
    assert_eq!(findings[0].check, "active-nspawn-machines");
}

#[test]
fn preflight_restore_aggregates() {
    let findings = preflight_restore(&names(&["foo"]));
    assert_eq!(findings.len(), 1);
    assert_eq!(findings[0].check, CHECK_ACTIVE_NSPAWN_MACHINES);
}

#[test]
fn only_errors_block() {
    let findings = vec![
        Finding::warning("w", "careful".to_string()),
        Finding::error("a", "first".to_string()),
        Finding::error("b", "second".to_string()),
    ];
    assert_eq!(blocking_summary(&findings), Some("a: first; b: second".to_string()));
    assert_eq!(blocking_summary(&vec![Finding::warning("w", "x".to_string())]), None);
}
