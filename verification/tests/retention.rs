use revenant::config::RetainConfig;
use revenant::metadata::{SnapshotMetadata, TriggerKind};
use revenant::retention::{select_to_keep, select_to_keep_explained, KeepReason};
use revenant::snapshot::{SnapshotId, SnapshotInfo};

fn make_snap(ts: &str) -> SnapshotInfo {
    SnapshotInfo {
        id: SnapshotId::from_string(ts).unwrap(),
        strain: "test".to_string(),
        subvolumes: vec!["@".to_string()],
        efi_synced: false,
        metadata: None,
    }
}

fn make_protected(ts: &str) -> SnapshotInfo {
    let mut s = make_snap(ts);
    s.metadata = Some(SnapshotMetadata::new(TriggerKind::Manual, vec![]).with_protected(true));
    s
}

fn has(keep: &Vec<String>, id: &str) -> bool {
    keep.iter().any(|k| k == id)
}

#[test]
fn last_only() {
    let snaps = [
        make_snap("20260101-000000"),
        make_snap("20260102-000000"),
        make_snap("20260103-000000"),
        make_snap("20260104-000000"),
        make_snap("20260105-000000"),
    ];
    let refs: Vec<&SnapshotInfo> = snaps.iter().collect();
    let retain = RetainConfig {
        last: 3,
        ..Default::default()
    };
    let keep = select_to_keep(&refs, &retain);
    assert_eq!(keep.len(), 3);
    assert!(has(&keep, "20260103-000000"));
    assert!(has(&keep, "20260104-000000"));
    assert!(has(&keep, "20260105-000000"));
    assert!(!has(&keep, "20260101-000000"));
    assert!(!has(&keep, "20260102-000000"));
}

#[test]
fn daily_deduplication() {
    let snaps = [
        make_snap("20260101-000000"),
        make_snap("20260101-120000"),
        make_snap("20260102-000000"),
        make_snap("20260102-120000"),
        make_snap("20260103-000000"),
    ];
    let refs: Vec<&SnapshotInfo> = snaps.iter().collect();
    let retain = RetainConfig {
        last: 0,
        daily: 2,
        ..Default::default()
    };
    let keep = select_to_keep(&refs, &retain);
    assert_eq!(keep.len(), 2);
    assert!(has(&keep, "20260103-000000"));
    assert!(has(&keep, "20260102-120000"));
    assert!(!has(&keep, "20260102-000000"));
    assert!(!has(&keep, "20260101-120000"));
    assert!(!has(&keep, "20260101-000000"));
}

#[test]
fn weekly_across_year_boundary() {
    let snaps = [
        make_snap("20251228-120000"),
        make_snap("20251229-120000"),
        make_snap("20260105-120000"),
    ];
    let refs: Vec<&SnapshotInfo> = snaps.iter().collect();
    let retain = RetainConfig {
        last: 0,
        weekly: 2,
        ..Default::default()
    };
    let keep = select_to_keep(&refs, &retain);
    assert_eq!(keep.len(), 2);
    assert!(has(&keep, "20260105-120000"));
    assert!(has(&keep, "20251229-120000"));
    assert!(!has(&keep, "20251228-120000"));
}

#[test]
fn overlap_between_categories() {
    let snaps = [
        make_snap("20260101-000000"),
        make_snap("20260201-000000"),
        make_snap("20260301-000000"),
    ];
    let refs: Vec<&SnapshotInfo> = snaps.iter().collect();
    let retain = RetainConfig {
        last: 1,
        monthly: 2,
        ..Default::default()
    };
    let keep = select_to_keep(&refs, &retain);
    assert_eq!(keep.len(), 2);
    assert!(has(&keep, "20260301-000000"));
    assert!(has(&keep, "20260201-000000"));
    assert!(!has(&keep, "20260101-000000"));
}

#[test]
fn explained_returns_all_matching_reasons() {
    let snaps = [
        make_snap("20260101-000000"),
        make_snap("20260201-000000"),
        make_snap("20260301-000000"),
    ];
    let refs: Vec<&SnapshotInfo> = snaps.iter().collect();
    let retain = RetainConfig {
        last: 1,
        monthly: 2,
        ..Default::default()
    };
    let keep = select_to_keep_explained(&refs, &retain);
    assert_eq!(
        keep.get("20260301-000000"),
        Some(&vec![KeepReason::Last, KeepReason::Monthly])
    );
    assert_eq!(
        keep.get("20260201-000000"),
        Some(&vec![KeepReason::Monthly])
    );
    assert!(!keep.contains_key("20260101-000000"));
}

#[test]
fn explained_matches_select_to_keep() {
    let snaps: Vec<_> = (1..=20)
        .map(|i| make_snap(&format!("2026{:02}01-000000", i % 12 + 1)))
        .collect();
    let refs: Vec<&SnapshotInfo> = snaps.iter().collect();
    let retain = RetainConfig {
        last: 3,
        monthly: 4,
        yearly: 1,
        ..Default::default()
    };
    let mut keep = select_to_keep(&refs, &retain);
    let explained = select_to_keep_explained(&refs, &retain);
    let mut explained_keys: Vec<String> = explained.entries.iter().map(|e| e.id.clone()).collect();
    keep.sort();
    explained_keys.sort();
    assert_eq!(keep, explained_keys);
}

#[test]
fn protected_snapshot_is_kept_under_zero_retention() {
    let snaps = [
        make_snap("20260101-000000"),
        make_protected("20260102-000000"),
        make_snap("20260103-000000"),
    ];
    let refs: Vec<&SnapshotInfo> = snaps.iter().collect();
    let retain_zero = RetainConfig {
        last: 0,
        hourly: 0,
        daily: 0,
        weekly: 0,
        monthly: 0,
        yearly: 0,
    };
    let keep = select_to_keep(&refs, &retain_zero);
    assert_eq!(keep.len(), 1);
    assert!(has(&keep, "20260102-000000"));
}

#[test]
fn protected_reason_appears_first() {
    let snaps = [
        make_protected("20260103-000000"),
        make_snap("20260102-000000"),
        make_snap("20260101-000000"),
    ];
    let refs: Vec<&SnapshotInfo> = snaps.iter().collect();
    let retain = RetainConfig {
        last: 1,
        ..Default::default()
    };
    let keep = select_to_keep_explained(&refs, &retain);
    assert_eq!(
        keep.get("20260103-000000"),
        Some(&vec![KeepReason::Protected, KeepReason::Last])
    );
}

#[test]
fn all_zero_empty_keep() {
    let snaps = [make_snap("20260101-000000"), make_snap("20260102-000000")];
    let refs: Vec<&SnapshotInfo> = snaps.iter().collect();
    let retain = RetainConfig::default();
    let retain_zero = RetainConfig {
        last: 0,
        hourly: 0,
        daily: 0,
        weekly: 0,
        monthly: 0,
        yearly: 0,
    };
    let keep = select_to_keep(&refs, &retain_zero);
    assert!(keep.is_empty());
    let keep_default = select_to_keep(&refs, &retain);
    assert_eq!(keep_default.len(), 2);
}
