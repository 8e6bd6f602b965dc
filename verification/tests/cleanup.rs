use revenant::backend::mock::MockBackend;
use revenant::backend::FileSystemBackend;
use revenant::cleanup::{
    apply_retention, apply_retention_force, apply_retention_with_now, list_tombstones,
    plan_retention, plan_retention_with_now, purge_all_tombstones, purge_orphaned_sidecars,
    purge_tombstones_by_name, recover_orphaned_nested_subvols, PlanAction,
};
use revenant::clock::Moment;
use revenant::config::Config;
use revenant::path::FsPath;
use revenant::retention::KeepReason;
use revenant::snapshot::SnapshotId;

fn top() -> FsPath {
    FsPath::new("/top")
}

fn p(s: &str) -> FsPath {
    FsPath::new(s)
}

/// The moment that an ID stands for.
fn moment(id: &str) -> Moment {
    SnapshotId::from_string(id).unwrap().created_at().unwrap()
}

fn config_with(strains: &[(&str, usize)], subvols: &[&str]) -> Config {
    let subvol_list = subvols.iter().map(|s| format!("\"{}\"", s)).collect::<Vec<_>>().join(", ");
    let mut toml = String::from(
        r#"
[sys]
rootfs_subvol = "@"
snapshot_subvol = "@snapshots"

[sys.rootfs]
backend = "btrfs"
device_uuid = "12345678-1234-1234-1234-123456789abc"

[sys.efi]
enabled = false

[sys.bootloader]
backend = "systemd-boot"
"#,
    );
    for (s, last) in strains {
        toml.push_str(&format!(
            "\n[strain.{}]\nsubvolumes = [{}]\n\n[strain.{}.retain]\nlast = {}\n",
            s, subvol_list, s, last
        ));
    }
    toml.parse().unwrap()
}

/// One strain `default` that retains the newest `last` snapshots.
fn config_retain_last(subvols: &[&str], last: usize) -> Config {
    config_with(&[("default", last)], subvols)
}

/// Two strains over the same subvolumes: `default` keeps 2, `periodic` 1.
fn config_two_strains_retain(subvols: &[&str]) -> Config {
    config_with(&[("default", 2), ("periodic", 1)], subvols)
}

fn setup_mock(config: &Config, toplevel: &FsPath) -> MockBackend {
    let mut mock = MockBackend::new();
    for entry in config.strain.entries() {
        for sv in &entry.config.subvolumes {
            let p = toplevel.join(sv);
            if !mock.contains(&p) {
                mock.seed_subvolume(&p);
            }
        }
    }
    mock.seed_subvolume(&toplevel.join(&config.sys.snapshot_subvol));
    mock
}

fn seed_snapshot_for(
    mock: &mut MockBackend,
    config: &Config,
    toplevel: &FsPath,
    strain: &str,
    id: &str,
) {
    let snap_dir = toplevel.join(&config.sys.snapshot_subvol);
    for sv in &config.strain.get(strain).unwrap().subvolumes {
        mock.seed_subvolume(&snap_dir.join(&format!("{}-{}-{}", sv, strain, id)));
    }
}

#[test]
fn retention_keeps_newest_n() {
    let config = config_retain_last(&["@"], 2);
    let toplevel = top();
    let mut mock = setup_mock(&config, &toplevel);

    for ts in &[
        "20260101-000000",
        "20260102-000000",
        "20260103-000000",
        "20260104-000000",
    ] {
        seed_snapshot_for(&mut mock, &config, &toplevel, "default", ts);
    }

    let summary = apply_retention(&config, &mut mock, &toplevel).unwrap();
    assert_eq!(summary.removed.len(), 2);
    assert!(summary.removed.contains(&"20260101-000000".to_string()));
    assert!(summary.removed.contains(&"20260102-000000".to_string()));
    assert!(summary.removed_sidecars.is_empty());

    assert!(mock.contains(&p("/top/@snapshots/@-default-20260103-000000")));
    assert!(mock.contains(&p("/top/@snapshots/@-default-20260104-000000")));
    assert!(!mock.contains(&p("/top/@snapshots/@-default-20260101-000000")));
    assert!(!mock.contains(&p("/top/@snapshots/@-default-20260102-000000")));
}

#[test]
fn retention_isolates_strains() {
    let config = config_two_strains_retain(&["@"]);
    let toplevel = top();
    let mut mock = setup_mock(&config, &toplevel);

    for ts in &["20260101-000000", "20260102-000000", "20260103-000000"] {
        seed_snapshot_for(&mut mock, &config, &toplevel, "default", ts);
        seed_snapshot_for(&mut mock, &config, &toplevel, "periodic", ts);
    }

    let summary = apply_retention(&config, &mut mock, &toplevel).unwrap();
    assert_eq!(summary.removed.len(), 3);

    assert!(mock.contains(&p("/top/@snapshots/@-default-20260102-000000")));
    assert!(mock.contains(&p("/top/@snapshots/@-default-20260103-000000")));
    assert!(!mock.contains(&p("/top/@snapshots/@-default-20260101-000000")));

    assert!(mock.contains(&p("/top/@snapshots/@-periodic-20260103-000000")));
    assert!(!mock.contains(&p("/top/@snapshots/@-periodic-20260101-000000")));
    assert!(!mock.contains(&p("/top/@snapshots/@-periodic-20260102-000000")));
}

#[test]
fn retention_under_limit_removes_nothing() {
    let config = config_retain_last(&["@"], 5);
    let toplevel = top();
    let mut mock = setup_mock(&config, &toplevel);

    for ts in &["20260101-000000", "20260102-000000"] {
        seed_snapshot_for(&mut mock, &config, &toplevel, "default", ts);
    }

    let summary = apply_retention(&config, &mut mock, &toplevel).unwrap();
    assert!(summary.removed.is_empty());
    assert!(summary.removed_sidecars.is_empty());
    assert!(mock.contains(&p("/top/@snapshots/@-default-20260101-000000")));
    assert!(mock.contains(&p("/top/@snapshots/@-default-20260102-000000")));
}

#[test]
fn retention_purges_expired_tombstones() {
    let config = config_retain_last(&["@"], 5);
    let toplevel = top();
    let mut mock = setup_mock(&config, &toplevel);

    mock.seed_subvolume(&toplevel.join("@-DELETE-20260101-120000"));

    let now = moment("20260401-000000");
    let summary = apply_retention_with_now(&config, &mut mock, &toplevel, now).unwrap();
    assert!(
        summary
            .removed
            .contains(&"@-DELETE-20260101-120000".to_string())
    );
    assert!(!mock.contains(&p("/top/@-DELETE-20260101-120000")));
}

#[test]
fn retention_keeps_recent_tombstones() {
    let config = config_retain_last(&["@"], 5);
    let toplevel = top();
    let mut mock = setup_mock(&config, &toplevel);

    mock.seed_subvolume(&toplevel.join("@-DELETE-20260101-120000"));
    let now = moment("20260103-120000");

    let summary = apply_retention_with_now(&config, &mut mock, &toplevel, now).unwrap();
    assert!(
        !summary
            .removed
            .contains(&"@-DELETE-20260101-120000".to_string())
    );
    assert!(mock.contains(&p("/top/@-DELETE-20260101-120000")));
}

#[test]
fn tombstone_max_age_zero_disables_purge() {
    let mut config = config_retain_last(&["@"], 5);
    config.sys.tombstone_max_age_days = 0;
    let toplevel = top();
    let mut mock = setup_mock(&config, &toplevel);

    mock.seed_subvolume(&toplevel.join("@-DELETE-20200101-120000"));
    let now = moment("20260401-000000");

    let summary = apply_retention_with_now(&config, &mut mock, &toplevel, now).unwrap();
    assert!(summary.removed.is_empty());
    assert!(mock.contains(&p("/top/@-DELETE-20200101-120000")));
}

#[test]
fn purge_orphaned_sidecars_removes_only_orphans() {
    let config = config_retain_last(&["@"], 5);
    let toplevel = top();
    let mut mock = setup_mock(&config, &toplevel);
    let snap_dir = toplevel.join(&config.sys.snapshot_subvol);
    let text =
        "schema_version = 1\ncreated_at = \"2026-04-14T14:05:01+02:00\"\ntrigger = \"manual\"\n";

    mock.seed_subvolume(&snap_dir.join("@-default-20260316-143022"));
    let kept_sidecar = snap_dir.join("default-20260316-143022.meta.toml");
    mock.write_file(&kept_sidecar, text).unwrap();

    let orphan_name = "default-20260101-000000.meta.toml";
    let orphan_path = snap_dir.join(orphan_name);
    mock.write_file(&orphan_path, text).unwrap();

    let removed = purge_orphaned_sidecars(&config, &mut mock, &toplevel).unwrap();
    assert_eq!(removed, vec![orphan_name.to_string()]);
    assert!(mock.read_file(&orphan_path).unwrap().is_none());
    assert!(mock.read_file(&kept_sidecar).unwrap().is_some());
}

#[test]
fn purge_orphaned_sidecars_snap_dir_missing_is_noop() {
    let config = config_retain_last(&["@"], 5);
    let toplevel = top();
    let mut mock = MockBackend::new();
    let removed = purge_orphaned_sidecars(&config, &mut mock, &toplevel).unwrap();
    assert!(removed.is_empty());
}

#[test]
fn plan_reports_keep_and_delete_per_strain() {
    let config = config_two_strains_retain(&["@"]);
    let toplevel = top();
    let mut mock = setup_mock(&config, &toplevel);

    for ts in &["20260101-000000", "20260102-000000", "20260103-000000"] {
        seed_snapshot_for(&mut mock, &config, &toplevel, "default", ts);
        seed_snapshot_for(&mut mock, &config, &toplevel, "periodic", ts);
    }

    let plan = plan_retention(&config, &mock, &toplevel, false).unwrap();
    assert!(mock.contains(&p("/top/@snapshots/@-default-20260101-000000")));
    assert!(mock.contains(&p("/top/@snapshots/@-periodic-20260101-000000")));

    let names: Vec<&str> = plan.strains.iter().map(|s| s.strain.as_str()).collect();
    assert_eq!(names, vec!["default", "periodic"]);

    let default = &plan.strains[0];
    assert_eq!(default.entries.len(), 3);
    assert_eq!(default.entries[0].id.as_str(), "20260103-000000");
    assert_eq!(default.entries[2].id.as_str(), "20260101-000000");
    assert!(matches!(
        default.entries[0].action,
        PlanAction::Keep { ref reasons } if reasons == &vec![KeepReason::Last]
    ));
    assert!(matches!(default.entries[2].action, PlanAction::Delete));

    let periodic = &plan.strains[1];
    assert!(matches!(
        periodic.entries[0].action,
        PlanAction::Keep { .. }
    ));
    assert!(matches!(periodic.entries[1].action, PlanAction::Delete));
    assert!(matches!(periodic.entries[2].action, PlanAction::Delete));

    assert!(plan.tombstones.is_empty());
}

#[test]
fn plan_lists_empty_strains() {
    let config = config_retain_last(&["@"], 5);
    let toplevel = top();
    let mut mock = setup_mock(&config, &toplevel);

    let plan = plan_retention(&config, &mock, &toplevel, false).unwrap();
    assert_eq!(plan.strains.len(), 1);
    assert_eq!(plan.strains[0].strain, "default");
    assert!(plan.strains[0].entries.is_empty());
}

#[test]
fn plan_reports_tombstones() {
    let config = config_retain_last(&["@"], 5);
    let toplevel = top();
    let mut mock = setup_mock(&config, &toplevel);

    mock.seed_subvolume(&toplevel.join("@-DELETE-20260101-120000"));
    mock.seed_subvolume(&toplevel.join("@home-DELETE-20260101-120000"));

    let plan = plan_retention(&config, &mock, &toplevel, false).unwrap();
    assert_eq!(plan.tombstones.len(), 1);
    let pt = &plan.tombstones[0];
    assert_eq!(pt.tombstone.name, "@-DELETE-20260101-120000");
    assert_eq!(pt.tombstone.base_subvol, "@");
    assert_eq!(pt.tombstone.id.as_str(), "20260101-120000");
    assert!(mock.contains(&p("/top/@-DELETE-20260101-120000")));
}

#[test]
fn plan_drops_unparsable_tombstones() {
    let config = config_retain_last(&["@"], 5);
    let toplevel = top();
    let mut mock = setup_mock(&config, &toplevel);

    mock.seed_subvolume(&toplevel.join("@-DELETE-not-a-timestamp"));
    mock.seed_subvolume(&toplevel.join("@-DELETE-20260101-120000"));

    let plan = plan_retention(&config, &mock, &toplevel, false).unwrap();
    assert_eq!(plan.tombstones.len(), 1);
    assert_eq!(
        plan.tombstones[0].tombstone.name,
        "@-DELETE-20260101-120000"
    );
}

#[test]
fn plan_splits_tombstones_by_age() {
    let config = config_retain_last(&["@"], 5);
    let toplevel = top();
    let mut mock = setup_mock(&config, &toplevel);

    mock.seed_subvolume(&toplevel.join("@-DELETE-20260101-120000"));
    mock.seed_subvolume(&toplevel.join("@-DELETE-20260428-120000"));

    let now = moment("20260501-120000");

    let plan = plan_retention_with_now(&config, &mock, &toplevel, now, false).unwrap();
    assert_eq!(plan.tombstones.len(), 2);

    assert_eq!(
        plan.tombstones[0].tombstone.name,
        "@-DELETE-20260101-120000"
    );
    assert!(plan.tombstones[0].would_purge);
    assert!(plan.tombstones[0].tombstone.expires_at.is_some());

    assert_eq!(
        plan.tombstones[1].tombstone.name,
        "@-DELETE-20260428-120000"
    );
    assert!(!plan.tombstones[1].would_purge);
    assert!(
        plan.tombstones[1]
            .tombstone
            .expires_at
            .is_some_and(|e| now.before(&e))
    );
}

#[test]
fn plan_max_age_zero_keeps_all_tombstones() {
    let mut config = config_retain_last(&["@"], 5);
    config.sys.tombstone_max_age_days = 0;
    let toplevel = top();
    let mut mock = setup_mock(&config, &toplevel);

    mock.seed_subvolume(&toplevel.join("@-DELETE-20200101-120000"));

    let now = moment("20260501-000000");

    let plan = plan_retention_with_now(&config, &mock, &toplevel, now, false).unwrap();
    assert_eq!(plan.tombstones.len(), 1);
    assert!(plan.tombstones[0].tombstone.expires_at.is_none());
    assert!(!plan.tombstones[0].would_purge);
}

#[test]
fn plan_force_marks_all_tombstones_as_purge() {
    let config = config_retain_last(&["@"], 5);
    let toplevel = top();
    let mut mock = setup_mock(&config, &toplevel);

    mock.seed_subvolume(&toplevel.join("@-DELETE-20260101-120000"));
    mock.seed_subvolume(&toplevel.join("@-DELETE-20260428-120000"));

    let now = moment("20260501-120000");

    let plan = plan_retention_with_now(&config, &mock, &toplevel, now, true).unwrap();
    assert_eq!(plan.tombstones.len(), 2);
    assert!(plan.tombstones.iter().all(|t| t.would_purge));
}

#[test]
fn apply_retention_force_purges_recent_tombstones() {
    let config = config_retain_last(&["@"], 5);
    let toplevel = top();
    let mut mock = setup_mock(&config, &toplevel);

    mock.seed_subvolume(&toplevel.join("@-DELETE-20260428-120000"));

    let summary = apply_retention_force(&config, &mut mock, &toplevel).unwrap();
    assert!(
        summary
            .removed
            .contains(&"@-DELETE-20260428-120000".to_string())
    );
    assert!(!mock.contains(&p("/top/@-DELETE-20260428-120000")));
}

#[test]
fn purge_skips_unrelated_subvols() {
    let config = config_retain_last(&["@"], 5);
    let toplevel = top();
    let mut mock = setup_mock(&config, &toplevel);

    mock.seed_subvolume(&toplevel.join("@-DELETE-20260101-120000"));
    mock.seed_subvolume(&toplevel.join("@home-DELETE-20260101-120000"));
    mock.seed_subvolume(&toplevel.join("@-default-20260102-120000"));

    let removed = purge_all_tombstones(&config, &mut mock, &toplevel).unwrap();
    assert_eq!(removed, vec!["@-DELETE-20260101-120000".to_string()]);
    assert!(!mock.contains(&p("/top/@-DELETE-20260101-120000")));
    assert!(mock.contains(&p("/top/@home-DELETE-20260101-120000")));
    assert!(mock.contains(&p("/top/@-default-20260102-120000")));
}

#[test]
fn purge_recurses_into_tombstone_with_nested_subvols() {
    let config = config_retain_last(&["@"], 5);
    let toplevel = top();
    let mut mock = setup_mock(&config, &toplevel);

    let tombstone = toplevel.join("@-DELETE-20260101-120000");
    mock.seed_subvolume(&tombstone);
    mock.seed_subvolume(&tombstone.join("var/lib/portables"));
    mock.seed_subvolume(&tombstone.join("var/lib/machines"));

    let removed = purge_all_tombstones(&config, &mut mock, &toplevel).unwrap();
    assert_eq!(removed, vec!["@-DELETE-20260101-120000".to_string()]);
    assert!(!mock.contains(&tombstone));
    assert!(!mock.contains(&tombstone.join("var/lib/portables")));
    assert!(!mock.contains(&tombstone.join("var/lib/machines")));
}

#[test]
fn purge_handles_multiple_tombstones() {
    let config = config_retain_last(&["@"], 5);
    let toplevel = top();
    let mut mock = setup_mock(&config, &toplevel);

    mock.seed_subvolume(&toplevel.join("@-DELETE-20260101-120000"));
    mock.seed_subvolume(&toplevel.join("@-DELETE-20260102-120000"));
    mock.seed_subvolume(&toplevel.join("@-DELETE-20260103-120000"));

    let removed = purge_all_tombstones(&config, &mut mock, &toplevel).unwrap();
    assert_eq!(removed.len(), 3);
    for ts in &["20260101-120000", "20260102-120000", "20260103-120000"] {
        assert!(!mock.contains(&p(&format!("/top/@-DELETE-{ts}"))));
    }
}

#[test]
fn recover_moves_nested_back_into_live_subvol() {
    let config = config_retain_last(&["@"], 5);
    let toplevel = top();
    let mut mock = setup_mock(&config, &toplevel);

    let tombstone = toplevel.join("@-DELETE-20260101-120000");
    mock.seed_subvolume(&tombstone);
    mock.seed_subvolume(&tombstone.join("var/lib/portables"));

    let recovered = recover_orphaned_nested_subvols(&config, &mut mock, &toplevel).unwrap();
    assert_eq!(recovered, 1);
    assert!(mock.contains(&p("/top/@/var/lib/portables")));
    assert!(!mock.contains(&tombstone.join("var/lib/portables")));
    assert!(mock.contains(&tombstone));
}

#[test]
fn recover_skips_tombstone_without_nested() {
    let config = config_retain_last(&["@"], 5);
    let toplevel = top();
    let mut mock = setup_mock(&config, &toplevel);

    mock.seed_subvolume(&toplevel.join("@-DELETE-20260101-120000"));

    let recovered = recover_orphaned_nested_subvols(&config, &mut mock, &toplevel).unwrap();
    assert_eq!(recovered, 0);
}

#[test]
fn recover_warns_when_live_subvol_missing() {
    let config = config_retain_last(&["@"], 5);
    let toplevel = top();
    let mut mock = MockBackend::new();
    mock.seed_subvolume(&toplevel.join(&config.sys.snapshot_subvol));
    let tombstone = toplevel.join("@-DELETE-20260101-120000");
    mock.seed_subvolume(&tombstone);
    mock.seed_subvolume(&tombstone.join("var/lib/portables"));

    let recovered = recover_orphaned_nested_subvols(&config, &mut mock, &toplevel).unwrap();
    assert_eq!(recovered, 0);
    assert!(mock.contains(&tombstone.join("var/lib/portables")));
    assert!(!mock.contains(&p("/top/@/var/lib/portables")));
}

#[test]
fn recover_skips_destination_collision() {
    let config = config_retain_last(&["@"], 5);
    let toplevel = top();
    let mut mock = setup_mock(&config, &toplevel);

    mock.seed_subvolume(&p("/top/@/var/lib/portables"));

    let tombstone = toplevel.join("@-DELETE-20260101-120000");
    mock.seed_subvolume(&tombstone);
    mock.seed_subvolume(&tombstone.join("var/lib/portables"));

    let recovered = recover_orphaned_nested_subvols(&config, &mut mock, &toplevel).unwrap();
    assert_eq!(recovered, 0);
    assert!(mock.contains(&p("/top/@/var/lib/portables")));
    assert!(mock.contains(&tombstone.join("var/lib/portables")));
}

#[test]
fn recover_handles_multiple_tombstones_and_nested() {
    let config = config_retain_last(&["@"], 5);
    let toplevel = top();
    let mut mock = setup_mock(&config, &toplevel);

    let t1 = toplevel.join("@-DELETE-20260101-120000");
    mock.seed_subvolume(&t1);
    mock.seed_subvolume(&t1.join("var/lib/portables"));
    mock.seed_subvolume(&t1.join("var/lib/machines"));

    let t2 = toplevel.join("@-DELETE-20260102-130000");
    mock.seed_subvolume(&t2);
    mock.seed_subvolume(&t2.join("var/cache/build"));

    let recovered = recover_orphaned_nested_subvols(&config, &mut mock, &toplevel).unwrap();
    assert_eq!(recovered, 3);
    assert!(mock.contains(&p("/top/@/var/lib/portables")));
    assert!(mock.contains(&p("/top/@/var/lib/machines")));
    assert!(mock.contains(&p("/top/@/var/cache/build")));
}

#[test]
fn recover_ignores_tombstones_for_unknown_bases() {
    let config = config_retain_last(&["@"], 5);
    let toplevel = top();
    let mut mock = setup_mock(&config, &toplevel);

    let foreign = toplevel.join("@home-DELETE-20260101-120000");
    mock.seed_subvolume(&foreign);
    mock.seed_subvolume(&foreign.join("inner/data"));

    let recovered = recover_orphaned_nested_subvols(&config, &mut mock, &toplevel).unwrap();
    assert_eq!(recovered, 0);
    assert!(mock.contains(&foreign.join("inner/data")));
}

#[test]
fn tombstones_are_listed_and_purged_by_name() {
    let config = config_retain_last(&["@"], 5);
    let toplevel = top();
    let mut mock = setup_mock(&config, &toplevel);
    mock.seed_subvolume(&p("/top/@-DELETE-20260101-120000"));
    mock.seed_subvolume(&p("/top/@-DELETE-20260102-120000"));
    mock.seed_subvolume(&p("/top/keep-me"));

    let listed = list_tombstones(&config, &mock, &toplevel).unwrap();
    let names: Vec<&str> = listed.iter().map(|t| t.name.as_str()).collect();
    assert_eq!(names, vec!["@-DELETE-20260101-120000", "@-DELETE-20260102-120000"]);
    assert_eq!(listed[0].expires_at, Some(moment("20260115-120000")));

    let asked = vec!["@-DELETE-20260102-120000".to_string(), "keep-me".to_string()];
    let removed = purge_tombstones_by_name(&config, &mut mock, &toplevel, &asked).unwrap();
    assert_eq!(removed, vec!["@-DELETE-20260102-120000".to_string()]);
    assert!(mock.contains(&p("/top/@-DELETE-20260101-120000")));
    assert!(mock.contains(&p("/top/keep-me")));
}

#[test]
fn what_the_plan_keeps_survives_the_run() {
    let config = config_two_strains_retain(&["@"]);
    let toplevel = top();
    let mut mock = setup_mock(&config, &toplevel);
    for ts in &["20260101-000000", "20260102-000000", "20260103-000000"] {
        seed_snapshot_for(&mut mock, &config, &toplevel, "default", ts);
        seed_snapshot_for(&mut mock, &config, &toplevel, "periodic", ts);
    }
    let plan = plan_retention(&config, &mock, &toplevel, false).unwrap();
    apply_retention(&config, &mut mock, &toplevel).unwrap();
    for strain in &plan.strains {
        for entry in &strain.entries {
            let path = p("/top/@snapshots").join(&entry.id.snapshot_name("@", &strain.strain));
            let kept = matches!(entry.action, PlanAction::Keep { .. });
            assert_eq!(mock.contains(&path), kept, "{:?}", entry);
        }
    }
}

#[test]
fn a_run_removes_what_the_plan_marks() {
    let config = config_two_strains_retain(&["@"]);
    let toplevel = top();
    let mut mock = setup_mock(&config, &toplevel);
    for ts in &["20260101-000000", "20260102-000000", "20260103-000000"] {
        seed_snapshot_for(&mut mock, &config, &toplevel, "default", ts);
        seed_snapshot_for(&mut mock, &config, &toplevel, "periodic", ts);
    }
    mock.seed_subvolume(&p("/top/@-DELETE-20260101-120000"));
    mock.seed_subvolume(&p("/top/@-DELETE-20260201-120000"));
    let now = moment("20260202-000000");
    let plan = plan_retention_with_now(&config, &mock, &toplevel, now, false).unwrap();
    let mut planned: Vec<String> = plan
        .tombstones
        .iter()
        .filter(|t| t.would_purge)
        .map(|t| t.tombstone.name.clone())
        .collect();
    for strain in &plan.strains {
        for entry in &strain.entries {
            if matches!(entry.action, PlanAction::Delete) {
                planned.push(entry.id.as_str().to_string());
            }
        }
    }
    let done = apply_retention_with_now(&config, &mut mock, &toplevel, now).unwrap();
    let mut removed = done.removed.clone();
    planned.sort();
    removed.sort();
    assert_eq!(removed, planned);
    assert_eq!(
        removed,
        vec!["20260101-000000", "20260101-000000", "20260102-000000", "@-DELETE-20260101-120000"]
    );
    assert!(mock.contains(&p("/top/@-DELETE-20260201-120000")));
    for strain in &plan.strains {
        for entry in &strain.entries {
            let part = entry.id.snapshot_name("@", &strain.strain);
            assert_eq!(
                mock.contains(&p("/top/@snapshots").join(&part)),
                matches!(entry.action, PlanAction::Keep { .. })
            );
        }
    }
}

#[test]
fn a_plan_holds_where_snapshots_lie_beside_the_tombstones() {
    let mut config = config_two_strains_retain(&["@"]);
    config.sys.snapshot_subvol = ".".to_string();
    let toplevel = top();
    let mut mock = MockBackend::new();
    mock.seed_subvolume(&toplevel);
    mock.seed_subvolume(&p("/top/@"));
    mock.seed_subvolume(&p("/top/@-default-20260101-000000"));
    mock.seed_subvolume(&p("/top/@-DELETE-20260101-120000"));
    let now = moment("20260202-000000");
    let plan = plan_retention_with_now(&config, &mock, &toplevel, now, false).unwrap();
    assert_eq!(plan.tombstones.len(), 1);
    assert!(plan.tombstones[0].would_purge);
    let done = apply_retention_with_now(&config, &mut mock, &toplevel, now).unwrap();
    assert_eq!(done.removed, vec!["@-DELETE-20260101-120000"]);
    assert!(mock.contains(&p("/top/@-default-20260101-000000")));
    assert!(!mock.contains(&p("/top/@-DELETE-20260101-120000")));
}

#[test]
fn recovery_loses_nothing_where_a_marker_lies_in_its_live_subvolume() {
    let config = config_retain_last(&["."], 5);
    let toplevel = top();
    let mut mock = MockBackend::new();
    mock.seed_subvolume(&toplevel);
    let marker = p("/top/.-DELETE-20260101-120000");
    mock.seed_subvolume(&marker);
    mock.seed_subvolume(&marker.join("a"));
    mock.seed_subvolume(&marker.join("b"));
    mock.seed_subvolume(&p("/top/b"));
    let recovered = recover_orphaned_nested_subvols(&config, &mut mock, &toplevel).unwrap();
    assert_eq!(recovered, 1);
    assert!(mock.contains(&p("/top/a")));
    assert!(!mock.contains(&marker.join("a")));
    // Its place is taken.
    assert!(mock.contains(&marker.join("b")));
}
