//! What the commands do to a system, said of its subvolumes and files.

use vstd::prelude::*;
use vstd::string::*;

use crate::assoc::{distinct_keys, lemma_lookup_distinct, lemma_lookup_index, lookup};
use crate::backend::effects::{gone, is_copy};
use crate::backend::{is_nested, is_nesting, is_synced, owned, FsState};
use crate::check::{FindingView, Severity};
use crate::clock::{Moment, WallTime};
use crate::cleanup::policy::{
    aged_out_purged, all_dropped, all_markers_purged, cleaned, drop_list, dropped, dropped_of,
    of_strain, strain_plan, CleanupSummary,
};
use crate::cleanup::recovery::{base_list, in_moved, recovered, recovery_by, recovery_step};
use crate::cleanup::tombstones::child_paths;
use crate::cli::commands::{
    cleanup_command, deletion, edited, gate, is_patch, machine_findings, recovery, recovery_notice,
    retained, saved, snapshot_made, snapshot_run, strain_deleted, swept, CleanupOutcome,
    DeleteOutcome, Outcome, RestoreGate, SnapshotOutcome,
};
use crate::config::{ConfigView, RetainConfig, StrainView};
use crate::laws::health::occurs;
use crate::laws::markers::{law_forced_cleanup, law_unforced_cleanup, only_base};
use crate::lines::{law_sorted_texts, sorted_texts};
use crate::metadata::{is_orphan, is_protected, sidecar_record, TriggerKind};
use crate::path::{file_name_of, moved, path_join, path_of, under, within, PathView};
use crate::preflight::{error_texts, has_error};
use crate::restore::{
    absent_parts, finished, job_of, law_finish_spares_the_rest,
    law_restore_changes_only_its_subvolumes, lock_path, restored_at,
};
use crate::retention::is_kept;
use crate::snapshot::discovery::{discovered, matching};
use crate::snapshot::id::{id_moment, id_ok};
use crate::snapshot::info::InfoView;
use crate::snapshot::operations::{
    all_paths, apart, chosen, deleted_all, efi_separate, ids_of, info_paths, recorded, taken,
    MetadataPatch,
};
use crate::snapshot::target::TargetView;
use crate::text::{joined, views};

verus! {

/// A snapshot command makes, for each subvolume of the strain, a read-only copy
/// of it in the snapshot directory, named `<subvolume>-<strain>-<id>`, with the
/// same files; and one for the EFI staging subvolume exactly if both the strain
/// and the system sync EFI. No subvolume is lost or changed.
pub proof fn law_snapshot_command(
    a: FsState,
    b: FsState,
    c: ConfigView,
    toplevel: PathView,
    strain: Seq<char>,
    trigger: TriggerKind,
    message: Seq<Seq<char>>,
    id: Seq<char>,
    created_at: WallTime,
    info: InfoView,
)
    requires
        snapshot_made(a, b, c, toplevel, strain, trigger, message, id, created_at, info),
    ensures
        lookup(c.strain, strain) is Some,
        info.strain == strain && info.id == id,
        info.efi_synced <==> lookup(c.strain, strain)->0.efi && c.sys.efi_enabled,
        forall|i: int|
            0 <= i < lookup(c.strain, strain)->0.subvolumes.len() ==> {
                let sv = #[trigger] lookup(c.strain, strain)->0.subvolumes[i];
                let live = path_join(toplevel, sv);
                let snap = path_join(
                    path_join(toplevel, c.sys.snapshot_subvol),
                    sv + "-"@ + strain + "-"@ + id,
                );
                &&& info.subvolumes[i] == sv
                &&& b.subvols.contains_key(live)
                &&& b.subvols.contains_key(snap)
                &&& b.subvols[snap].readonly
                &&& b.subvols[snap].parent_uuid == Some(b.subvols[live].uuid)
            },
        info.efi_synced ==> b.subvols.contains_key(
            path_join(
                path_join(toplevel, c.sys.snapshot_subvol),
                c.sys.staging_subvol + "-"@ + strain + "-"@ + id,
            ),
        ) && info.subvolumes.len() == lookup(c.strain, strain)->0.subvolumes.len() + 1
            && info.subvolumes.last() == c.sys.staging_subvol,
        !info.efi_synced ==> info.subvolumes.len() == lookup(c.strain, strain)->0.subvolumes.len(),
        forall|p: PathView| #[trigger]
            a.subvols.contains_key(p) ==> b.subvols.contains_key(p) && b.subvols[p] == a.subvols[p],
        info.metadata matches Some(m) ==> m.trigger == trigger && m.message == message
            && !m.protected && m.schema_version == 1 && m.created_at == created_at,
        info.metadata matches Some(m) ==> (created_at.offset % 60 == 0 ==> ({
            let file = path_join(
                path_join(toplevel, c.sys.snapshot_subvol),
                strain + "-"@ + id + ".meta.toml"@,
            );
            b.files.contains_key(file) && sidecar_record(b.files[file]) == Some(m)
        })),
{
    let s = lookup(c.strain, strain)->0;
    let dir = path_join(toplevel, c.sys.snapshot_subvol);
    let file = path_join(dir, strain + "-"@ + id + ".meta.toml"@);
    let mid = choose|mid: FsState| #[trigger]
        taken(a, mid, c, toplevel, strain, id) && recorded(mid, b, file, info.metadata);
    assert forall|i: int| 0 <= i < s.subvolumes.len() implies ({
        let sv = #[trigger] s.subvolumes[i];
        let live = path_join(toplevel, sv);
        let snap = path_join(dir, sv + "-"@ + strain + "-"@ + id);
        &&& info.subvolumes[i] == sv
        &&& b.subvols.contains_key(live)
        &&& b.subvols.contains_key(snap)
        &&& b.subvols[snap].readonly
        &&& b.subvols[snap].parent_uuid == Some(b.subvols[live].uuid)
    }) by {
        let sv = s.subvolumes[i];
        assert(is_copy(
            mid,
            path_join(toplevel, sv),
            path_join(dir, sv + "-"@ + strain + "-"@ + id),
            true,
        ));
    }
    if info.efi_synced {
        assert(mid.subvols.contains_key(
            path_join(dir, c.sys.staging_subvol + "-"@ + strain + "-"@ + id),
        ));
    }
}

/// A snapshot is of the whole subvolume: every file that the live subvolume
/// itself holds is in the copy, at the same place, and no others are.
pub proof fn law_snapshot_has_the_files(
    a: FsState,
    b: FsState,
    c: ConfigView,
    toplevel: PathView,
    strain: Seq<char>,
    id: Seq<char>,
    i: int,
    x: PathView,
)
    requires
        taken(a, b, c, toplevel, strain, id),
        0 <= i < lookup(c.strain, strain)->0.subvolumes.len(),
    ensures
        ({
            let sv = lookup(c.strain, strain)->0.subvolumes[i];
            let live = path_join(toplevel, sv);
            let snap = path_join(
                path_join(toplevel, c.sys.snapshot_subvol),
                sv + "-"@ + strain + "-"@ + id,
            );
            &&& owned(b, live, x) ==> owned(b, snap, moved(x, live, snap))
            &&& owned(b, snap, x) ==> owned(b, live, moved(x, snap, live)) && b.files[x]
                == b.files[moved(x, snap, live)]
        }),
{
    let sv = lookup(c.strain, strain)->0.subvolumes[i];
    let live = path_join(toplevel, sv);
    let snap = path_join(
        path_join(toplevel, c.sys.snapshot_subvol),
        sv + "-"@ + strain + "-"@ + id,
    );
    assert(is_copy(b, live, snap, true));
}

/// After a snapshot, retention is applied exactly if it is switched on; it is
/// never forced.
pub proof fn law_retention_switch(
    a: FsState,
    b: FsState,
    c: ConfigView,
    toplevel: PathView,
    now: Moment,
    removed: Seq<Seq<char>>,
)
    requires
        retained(a, b, c, toplevel, now, removed),
    ensures
        !c.sys.auto_apply_retention ==> b == a && removed.len() == 0,
        c.sys.auto_apply_retention ==> exists|o: CleanupSummary| #[trigger]
            swept(a, b, c, toplevel, false, now, o) && views(o.removed@) == removed,
{
}

/// The snapshots of a strain among some, in their order.
pub proof fn law_snapshots_of_strain(all: Seq<InfoView>, strain: Seq<char>, s: InfoView)
    ensures
        of_strain(all, strain).contains(s) <==> all.contains(s) && s.strain == strain,
    decreases all.len(),
{
    if all.len() > 0 {
        let u = all.drop_last();
        law_snapshots_of_strain(u, strain, s);
        let (m, first) = (of_strain(all, strain), of_strain(u, strain));
        if first.contains(s) {
            let k = choose|k: int| 0 <= k < first.len() && first[k] == s;
            assert(m[k] == s);
            let j = choose|j: int| 0 <= j < u.len() && u[j] == s;
            assert(all[j] == s);
        } else if m.contains(s) {
            let k = choose|k: int| 0 <= k < m.len() && m[k] == s;
            if k < first.len() {
                assert(first[k] == s);
            }
            assert(all[all.len() - 1] == s);
        }
        if all.contains(s) && s.strain == strain {
            let j = choose|j: int| 0 <= j < all.len() && all[j] == s;
            if j < u.len() {
                assert(u[j] == s);
            } else {
                assert(m[first.len() as int] == s);
            }
        }
    }
}

proof fn lemma_dropped_of(
    full: Seq<InfoView>,
    retain: RetainConfig,
    v: Seq<InfoView>,
    s: InfoView,
)
    ensures
        dropped_of(full, retain, v).contains(s) <==> v.contains(s) && !is_kept(full, retain, s.id),
    decreases v.len(),
{
    if v.len() > 0 {
        let u = v.drop_last();
        lemma_dropped_of(full, retain, u, s);
        let (m, first) = (dropped_of(full, retain, v), dropped_of(full, retain, u));
        if first.contains(s) {
            let k = choose|k: int| 0 <= k < first.len() && first[k] == s;
            assert(m[k] == s);
            let j = choose|j: int| 0 <= j < u.len() && u[j] == s;
            assert(v[j] == s);
        } else if m.contains(s) {
            let k = choose|k: int| 0 <= k < m.len() && m[k] == s;
            if k < first.len() {
                assert(first[k] == s);
            }
            assert(v[v.len() - 1] == s);
        }
        if v.contains(s) && !is_kept(full, retain, s.id) {
            let j = choose|j: int| 0 <= j < v.len() && v[j] == s;
            if j < u.len() {
                assert(u[j] == s);
            } else {
                assert(m[first.len() as int] == s);
            }
        }
    }
}

proof fn lemma_drop_list(
    s: Seq<(Seq<char>, StrainView)>,
    all: Seq<InfoView>,
    n: nat,
    x: InfoView,
)
    requires
        n <= s.len(),
    ensures
        drop_list(s, all, n).contains(x) <==> exists|i: int|
            0 <= i < n && (#[trigger] s[i]).0 == x.strain && all.contains(x) && !is_kept(
                of_strain(all, x.strain),
                s[i].1.retain,
                x.id,
            ),
    decreases n,
{
    if n > 0 {
        lemma_drop_list(s, all, (n - 1) as nat, x);
        let first = drop_list(s, all, (n - 1) as nat);
        let (name, st) = s[n - 1];
        let last = dropped(all, name, st.retain);
        lemma_dropped_of(of_strain(all, name), st.retain, of_strain(all, name), x);
        law_snapshots_of_strain(all, name, x);
        let m = drop_list(s, all, n);
        assert(m == first + last);
        if first.contains(x) {
            let k = choose|k: int| 0 <= k < first.len() && first[k] == x;
            assert(m[k] == x);
        }
        if last.contains(x) {
            let k = choose|k: int| 0 <= k < last.len() && last[k] == x;
            assert(m[first.len() + k] == x);
            assert(s[n - 1].0 == x.strain);
        }
        if m.contains(x) {
            let k = choose|k: int| 0 <= k < m.len() && m[k] == x;
            if k < first.len() {
                assert(first[k] == x);
            } else {
                assert(last[k - first.len()] == x);
            }
        }
    }
}

/// Retention drops a listed snapshot exactly if its strain is configured and
/// the policy of that strain does not keep it among the snapshots of the
/// strain. A strain's policy has no say on those of another.
pub proof fn law_dropped_snapshots(c: ConfigView, all: Seq<InfoView>, x: InfoView)
    requires
        distinct_keys(c.strain),
    ensures
        all_dropped(c, all).contains(x) <==> all.contains(x) && (lookup(
            c.strain,
            x.strain,
        ) matches Some(s) && !is_kept(of_strain(all, x.strain), s.retain, x.id)),
{
    lemma_drop_list(c.strain, all, c.strain.len(), x);
    if lookup(c.strain, x.strain) is Some {
        let i = lemma_lookup_index(c.strain, x.strain);
        assert(c.strain[i].0 == x.strain);
    }
    if all_dropped(c, all).contains(x) {
        let i = choose|i: int|
            0 <= i < c.strain.len() && (#[trigger] c.strain[i]).0 == x.strain && all.contains(x)
                && !is_kept(of_strain(all, x.strain), c.strain[i].1.retain, x.id);
        lemma_lookup_distinct(c.strain, i);
    }
}

proof fn lemma_path_in(c: ConfigView, toplevel: PathView, v: Seq<InfoView>, k: int, i: int)
    requires
        0 <= k < v.len(),
        0 <= i < v[k].subvolumes.len(),
    ensures
        all_paths(c, toplevel, v).contains(info_paths(c, toplevel, v[k])[i]),
    decreases v.len(),
{
    let first = all_paths(c, toplevel, v.drop_last());
    let last = info_paths(c, toplevel, v.last());
    let all = all_paths(c, toplevel, v);
    if k == v.len() - 1 {
        assert(all[first.len() + i] == last[i]);
    } else {
        lemma_path_in(c, toplevel, v.drop_last(), k, i);
        let p = info_paths(c, toplevel, v[k])[i];
        let j = choose|j: int| 0 <= j < first.len() && first[j] == p;
        assert(all[j] == p);
    }
}

/// A deletion takes every part `<part>-<strain>-<id>` of the deleted snapshots.
pub proof fn law_deleted_parts(
    a: FsState,
    b: FsState,
    c: ConfigView,
    toplevel: PathView,
    v: Seq<InfoView>,
    k: int,
    i: int,
)
    requires
        deleted_all(a, b, c, toplevel, v, true),
        0 <= k < v.len(),
        0 <= i < v[k].subvolumes.len(),
    ensures
        !b.subvols.contains_key(
            path_join(
                path_join(toplevel, c.sys.snapshot_subvol),
                v[k].subvolumes[i] + "-"@ + v[k].strain + "-"@ + v[k].id,
            ),
        ),
{
    reveal(gone);
    lemma_path_in(c, toplevel, v, k, i);
    let paths = all_paths(c, toplevel, v);
    let p = info_paths(c, toplevel, v[k])[i];
    let j = choose|j: int| 0 <= j < paths.len() && paths[j] == p;
    assert(p.take(p.len() as int) =~= p);
    if b.subvols.contains_key(p) {
        assert(a.subvols.contains_key(paths[j]));
        assert(gone(a, paths, p));
    }
}

/// A cleanup removes exactly what it should of the snapshots found: one that
/// its strain's policy does not keep loses all its parts. Afterwards no sidecar
/// is left without a snapshot.
pub proof fn law_cleanup_of_snapshots(
    s1: FsState,
    s2: FsState,
    b: FsState,
    c: ConfigView,
    toplevel: PathView,
    all: Seq<InfoView>,
    purged: Seq<Seq<char>>,
    o: CleanupSummary,
    x: InfoView,
    i: int,
)
    requires
        distinct_keys(c.strain),
        cleaned(s1, s2, b, c, toplevel, all, purged, o),
        all.contains(x),
        lookup(c.strain, x.strain) is Some,
        !is_kept(of_strain(all, x.strain), lookup(c.strain, x.strain)->0.retain, x.id),
        0 <= i < x.subvolumes.len(),
    ensures
        !b.subvols.contains_key(
            path_join(
                path_join(toplevel, c.sys.snapshot_subvol),
                x.subvolumes[i] + "-"@ + x.strain + "-"@ + x.id,
            ),
        ),
        views(o.removed@).contains(x.id),
{
    law_dropped_snapshots(c, all, x);
    let v = all_dropped(c, all);
    let k = choose|k: int| 0 <= k < v.len() && v[k] == x;
    law_deleted_parts(s1, s2, c, toplevel, v, k, i);
    assert((purged + ids_of(v))[purged.len() + k] == x.id);
}

/// After a cleanup there is no orphaned sidecar in the snapshot directory, if
/// the directory is there.
pub proof fn law_cleanup_of_sidecars(
    s1: FsState,
    s2: FsState,
    b: FsState,
    c: ConfigView,
    toplevel: PathView,
    all: Seq<InfoView>,
    purged: Seq<Seq<char>>,
    o: CleanupSummary,
    n: Seq<char>,
)
    requires
        cleaned(s1, s2, b, c, toplevel, all, purged, o),
        b.subvols.contains_key(path_join(toplevel, c.sys.snapshot_subvol)),
    ensures
        !is_orphan(b, path_join(toplevel, c.sys.snapshot_subvol), n),
        views(o.removed_sidecars@).contains(n) ==> !b.files.contains_key(
            path_join(toplevel, c.sys.snapshot_subvol).push(n),
        ),
{
    let dir = path_join(toplevel, c.sys.snapshot_subvol);
    let names = views(o.removed_sidecars@);
    let gone_ones = child_paths(dir, names);
    if names.contains(n) {
        let k = choose|k: int| 0 <= k < names.len() && names[k] == n;
        assert(gone_ones[k] == dir.push(n));
        assert(gone_ones.contains(dir.push(n)));
    }
    if is_orphan(b, dir, n) {
        assert(b.files.contains_key(dir.push(n)));
        assert(is_orphan(s2, dir, n));
    }
}

/// A forced cleanup leaves no marker of a subvolume of ours; one that is not
/// forced leaves none that has aged out.
pub proof fn law_cleanup_of_markers(
    a: FsState,
    b: FsState,
    c: ConfigView,
    toplevel: PathView,
    force: bool,
    now: Moment,
    o: CleanupSummary,
    base: Seq<char>,
    id: Seq<char>,
)
    requires
        swept(a, b, c, toplevel, force, now, o),
        base_list(c).contains(base),
        id_ok(id),
        id_moment(id) matches Some(m) ==> m.wf(),
        only_base(c, base + "-DELETE-"@ + id, base),
        file_name_of(toplevel.push(base + "-DELETE-"@ + id)) == Some(base + "-DELETE-"@ + id),
    ensures
        force || (c.sys.tombstone_max_age_days != 0 && (id_moment(id) matches Some(m) && {
            let at = m.secs + c.sys.tombstone_max_age_days * 86_400;
            at < now.secs || (at == now.secs && m.nanos < now.nanos)
        })) ==> !b.subvols.contains_key(toplevel.push(base + "-DELETE-"@ + id)),
{
    let name = base + "-DELETE-"@ + id;
    let p = toplevel.push(name);
    let (s1, s2, all, purged) = choose|
        s1: FsState,
        s2: FsState,
        all: Seq<InfoView>,
        purged: Seq<Seq<char>>,
    |
        (if force {
            all_markers_purged(a, s1, c, toplevel, purged)
        } else {
            aged_out_purged(a, s1, c, toplevel, now, purged)
        }) && #[trigger] cleaned(s1, s2, b, c, toplevel, all, purged, o);
    if a.subvols.contains_key(p) {
        if force {
            law_forced_cleanup(a, s1, c, toplevel, purged, name);
        } else {
            law_unforced_cleanup(a, s1, c, toplevel, now, purged, base, id);
        }
    }
    if b.subvols.contains_key(p) {
        assert(s2.subvols.contains_key(p));
        assert(s1.subvols.contains_key(p));
        assert(a.subvols.contains_key(p));
    }
}

/// Of a strain, a bulk deletion takes exactly the snapshots whose record does
/// not protect them, and reports the protected ones as skipped.
pub proof fn law_bulk_choice(all: Seq<InfoView>, strain: Seq<char>, protected: bool, s: InfoView)
    ensures
        chosen(all, strain, protected).contains(s) <==> all.contains(s) && s.strain == strain && ((
        s.metadata matches Some(m) && m.protected) <==> protected),
    decreases all.len(),
{
    if all.len() > 0 {
        let u = all.drop_last();
        law_bulk_choice(u, strain, protected, s);
        let (m, first) = (chosen(all, strain, protected), chosen(u, strain, protected));
        if first.contains(s) {
            let k = choose|k: int| 0 <= k < first.len() && first[k] == s;
            assert(m[k] == s);
            let j = choose|j: int| 0 <= j < u.len() && u[j] == s;
            assert(all[j] == s);
        } else if m.contains(s) {
            let k = choose|k: int| 0 <= k < m.len() && m[k] == s;
            if k < first.len() {
                assert(first[k] == s);
            }
            assert(all[all.len() - 1] == s);
        }
        if all.contains(s) && s.strain == strain && ((s.metadata matches Some(m) && m.protected)
            <==> protected) {
            let j = choose|j: int| 0 <= j < all.len() && all[j] == s;
            if j < u.len() {
                assert(u[j] == s);
            } else {
                assert(m[first.len() as int] == s);
            }
        }
    }
}

/// Deleting all of a strain: each of its snapshots that is not protected loses
/// its parts and its ID is reported as deleted; the IDs of the protected ones
/// are reported as skipped.
pub proof fn law_delete_strain(
    a: FsState,
    b: FsState,
    c: ConfigView,
    toplevel: PathView,
    strain: Seq<char>,
    o: DeleteOutcome,
)
    requires
        strain_deleted(a, b, c, toplevel, strain, o),
    ensures
        exists|all: Seq<InfoView>| #[trigger]
            discovered(a, c, toplevel, all) && forall|k: int|
                0 <= k < all.len() && (#[trigger] all[k]).strain == strain ==> if is_protected(
                    all[k].metadata,
                ) {
                    views(o.skipped_protected@).contains(all[k].id)
                } else {
                    views(o.deleted@).contains(all[k].id) && forall|i: int|
                        0 <= i < all[k].subvolumes.len() ==> !b.subvols.contains_key(
                            path_join(
                                path_join(toplevel, c.sys.snapshot_subvol),
                                #[trigger] all[k].subvolumes[i] + "-"@ + strain + "-"@ + all[k].id,
                            ),
                        )
                },
{
    let (all, x) = choose|all: Seq<InfoView>, x: crate::snapshot::operations::BulkDeleteOutcome|
        discovered(a, c, toplevel, all) && #[trigger] crate::snapshot::operations::bulk_deleted(
            a,
            b,
            c,
            toplevel,
            strain,
            all,
            x,
        ) && x.deleted == o.deleted && x.skipped_protected == o.skipped_protected;
    assert forall|k: int| 0 <= k < all.len() && (#[trigger] all[k]).strain == strain implies (if
        is_protected(all[k].metadata) {
        views(o.skipped_protected@).contains(all[k].id)
    } else {
        views(o.deleted@).contains(all[k].id) && forall|i: int|
            0 <= i < all[k].subvolumes.len() ==> !b.subvols.contains_key(
                path_join(
                    path_join(toplevel, c.sys.snapshot_subvol),
                    #[trigger] all[k].subvolumes[i] + "-"@ + strain + "-"@ + all[k].id,
                ),
            )
    }) by {
        let s = all[k];
        assert(all.contains(s));
        let p = is_protected(s.metadata);
        law_bulk_choice(all, strain, p, s);
        let v = chosen(all, strain, p);
        let j = choose|j: int| 0 <= j < v.len() && v[j] == s;
        assert(ids_of(v)[j] == s.id);
        if !p {
            assert forall|i: int| 0 <= i < s.subvolumes.len() implies !b.subvols.contains_key(
                path_join(
                    path_join(toplevel, c.sys.snapshot_subvol),
                    #[trigger] s.subvolumes[i] + "-"@ + strain + "-"@ + s.id,
                ),
            ) by {
                law_deleted_parts(a, b, c, toplevel, v, j, i);
            }
        }
    }
}

/// An edit changes what it was asked to change of the record, and leaves the
/// rest: protection where it is given, notes where they are given, and never
/// the time, the trigger or the version.
pub proof fn law_edit(
    a: FsState,
    b: FsState,
    c: ConfigView,
    toplevel: PathView,
    s: InfoView,
    p: MetadataPatch,
)
    requires
        edited(a, b, c, toplevel, s, p),
    ensures
        ({
            let file = path_join(
                path_join(toplevel, c.sys.snapshot_subvol),
                s.strain + "-"@ + s.id + ".meta.toml"@,
            );
            &&& a.files.contains_key(file)
            &&& sidecar_record(a.files[file]) matches Some(old) && (old.created_at.offset % 60 == 0
                ==> (b.files.contains_key(file) && (sidecar_record(
                b.files[file],
            ) matches Some(new) && new.created_at == old.created_at && new.trigger == old.trigger
                && new.schema_version == old.schema_version && new.protected == (match p.protected {
                Some(x) => x,
                None => old.protected,
            }) && new.message == (match p.message {
                Some(v) => views(v@),
                None => old.message,
            }))))
            &&& b.subvols == a.subvols
            &&& forall|q: PathView| q != file ==> (#[trigger] b.files.contains_key(q)
                == a.files.contains_key(q))
        }),
{
}

/// The options of an edit: `--protect` protects, `--unprotect` does not, and
/// without either the protection is left; notes are left unless given, and one
/// empty note clears them.
pub proof fn law_edit_options(
    p: MetadataPatch,
    message: Option<Seq<Seq<char>>>,
    protect: bool,
    unprotect: bool,
)
    requires
        is_patch(p, message, protect, unprotect),
    ensures
        protect ==> p.protected == Some(true),
        !protect && unprotect ==> p.protected == Some(false),
        !protect && !unprotect ==> p.protected is None,
        message is None <==> p.message is None,
        message == Some(seq![Seq::<char>::empty()]) ==> p.message is Some
            && p.message->0@.len() == 0,
        message matches Some(v) ==> (v.len() != 1 || v[0].len() > 0 ==> p.message is Some && views(
            p.message->0@,
        ) == v),
{
}

/// A restore goes on exactly if it is confirmed and no check blocks it, or the
/// block is overridden; confirming does not override, and overriding does not
/// confirm.
pub proof fn law_restore_gate(blocked: bool, yes: bool, force: bool)
    ensures
        gate(blocked, yes, force) == RestoreGate::Proceed <==> yes && (!blocked || force),
        gate(blocked, yes, force) == RestoreGate::Blocked <==> blocked && !force,
        gate(blocked, yes, force) == RestoreGate::Unconfirmed <==> !yes && (!blocked || force),
{
}

/// A restore is blocked exactly if a machine is running, and the finding names
/// every one.
pub proof fn law_machines_block(machines: Seq<Seq<char>>)
    ensures
        has_error(machine_findings(machines)) <==> machines.len() > 0,
        machines.len() > 0 ==> machine_findings(machines).len() == 1 && forall|i: int|
            0 <= i < machines.len() ==> occurs(
                #[trigger] machines[i],
                machine_findings(machines)[0].message,
            ),
{
    let v = machine_findings(machines);
    if machines.len() > 0 {
        assert(v[0].severity == Severity::Error);
        let list = sorted_texts(machines);
        law_sorted_texts(machines);
        assert forall|i: int| 0 <= i < machines.len() implies occurs(
            #[trigger] machines[i],
            v[0].message,
        ) by {
            broadcast use vstd::seq_lib::group_to_multiset_ensures;

            assert(machines.to_multiset().count(machines[i]) > 0);
            assert(list.to_multiset().count(machines[i]) > 0);
            assert(list.contains(machines[i]));
            let k = choose|k: int| 0 <= k < list.len() && list[k] == machines[i];
            lemma_joined_has(list, ", "@, k);
            let (x, y) = choose|x: Seq<char>, y: Seq<char>|
                joined(list, ", "@) == #[trigger] (x + machines[i] + y);
            let head = if machines.len() == 1 {
                "nspawn machine registered with systemd-machined is active: "@
            } else {
                "nspawn machines registered with systemd-machined are active: "@
            };
            assert(v[0].message =~= (head + x) + machines[i] + y);
        }
    }
}

/// Every part occurs in the joined text.
pub proof fn lemma_joined_has(parts: Seq<Seq<char>>, sep: Seq<char>, k: int)
    requires
        0 <= k < parts.len(),
    ensures
        occurs(parts[k], joined(parts, sep)),
    decreases parts.len(),
{
    let all = joined(parts, sep);
    if parts.len() == 1 {
        assert(all =~= Seq::<char>::empty() + parts[k] + Seq::<char>::empty());
    } else if k == parts.len() - 1 {
        assert(all =~= (joined(parts.drop_last(), sep) + sep) + parts[k] + Seq::<char>::empty());
    } else {
        lemma_joined_has(parts.drop_last(), sep, k);
        let first = joined(parts.drop_last(), sep);
        let (x, y) = choose|x: Seq<char>, y: Seq<char>| first == #[trigger] (x + parts[k] + y);
        assert(all =~= x + parts[k] + (y + sep + parts.last()));
    }
}

/// The state before a restore is saved exactly if that is asked for: as a
/// snapshot of the restored strain, triggered by the restore, with the restored
/// ID as its note.
pub proof fn law_saved_state(
    a: FsState,
    m: FsState,
    c: ConfigView,
    toplevel: PathView,
    s: InfoView,
    save: bool,
    id: Seq<char>,
    created_at: WallTime,
    pre: Option<InfoView>,
)
    requires
        saved(a, m, c, toplevel, s, save, id, created_at, pre),
    ensures
        save <==> pre is Some,
        !save ==> m == a,
        pre matches Some(x) ==> x.strain == s.strain && x.id == id && (x.metadata matches Some(r)
            ==> r.trigger == TriggerKind::Restore && r.message == seq![s.id] && !r.protected),
{
}

/// The parts that a snapshot lacks are those of which no subvolume
/// `<part>-<strain>-<id>` is there.
pub proof fn law_missing_parts(
    st: FsState,
    c: ConfigView,
    toplevel: PathView,
    strain: Seq<char>,
    id: Seq<char>,
    parts: Seq<Seq<char>>,
    p: Seq<char>,
)
    ensures
        absent_parts(st, c, toplevel, strain, id, parts).contains(p) <==> parts.contains(p)
            && !st.subvols.contains_key(
            path_join(path_join(toplevel, c.sys.snapshot_subvol), p + "-"@ + strain + "-"@ + id),
        ),
    decreases parts.len(),
{
    if parts.len() > 0 {
        let u = parts.drop_last();
        law_missing_parts(st, c, toplevel, strain, id, u, p);
        let (m, first) = (
            absent_parts(st, c, toplevel, strain, id, parts),
            absent_parts(st, c, toplevel, strain, id, u),
        );
        if first.contains(p) {
            let k = choose|k: int| 0 <= k < first.len() && first[k] == p;
            assert(m[k] == p);
            let j = choose|j: int| 0 <= j < u.len() && u[j] == p;
            assert(parts[j] == p);
        } else if m.contains(p) {
            let k = choose|k: int| 0 <= k < m.len() && m[k] == p;
            if k < first.len() {
                assert(first[k] == p);
            }
            assert(parts[parts.len() - 1] == p);
        }
        if parts.contains(p) && !st.subvols.contains_key(
            path_join(path_join(toplevel, c.sys.snapshot_subvol), p + "-"@ + strain + "-"@ + id),
        ) {
            let j = choose|j: int| 0 <= j < parts.len() && parts[j] == p;
            if j < u.len() {
                assert(u[j] == p);
            } else {
                assert(m[first.len() as int] == p);
            }
        }
    }
}

/// After a restore, each subvolume of the strain is a writable copy of its
/// snapshot `<subvolume>-<strain>-<id>`, and what it was before is at
/// `<subvolume>-DELETE-<timestamp>`. No other subvolume is new or lost.
pub proof fn law_restore_command(
    a: FsState,
    b: FsState,
    c: ConfigView,
    toplevel: PathView,
    s: InfoView,
    ts: Seq<char>,
)
    requires
        restored_at(a, b, c, toplevel, s, ts),
        job_of(c, toplevel, s, ts).possible(a),
        forall|i: int, j: int|
            0 <= i < lookup(c.strain, s.strain)->0.subvolumes.len() && 0 <= j < lookup(
                c.strain,
                s.strain,
            )->0.subvolumes.len() ==> {
                let (x, y) = (
                    #[trigger] lookup(c.strain, s.strain)->0.subvolumes[i],
                    #[trigger] lookup(c.strain, s.strain)->0.subvolumes[j],
                );
                &&& i != j ==> path_join(toplevel, x) != path_join(toplevel, y)
                &&& path_join(toplevel, x) != path_join(
                    path_join(toplevel, c.sys.snapshot_subvol),
                    y + "-"@ + s.strain + "-"@ + s.id,
                )
            },
    ensures
        forall|i: int|
            0 <= i < lookup(c.strain, s.strain)->0.subvolumes.len() ==> {
                let sv = #[trigger] lookup(c.strain, s.strain)->0.subvolumes[i];
                let live = path_join(toplevel, sv);
                let marker = path_join(toplevel, sv + "-DELETE-"@ + ts);
                let snap = path_join(
                    path_join(toplevel, c.sys.snapshot_subvol),
                    sv + "-"@ + s.strain + "-"@ + s.id,
                );
                &&& b.subvols.contains_key(live)
                &&& b.subvols.contains_key(marker)
                &&& b.subvols[marker] == a.subvols[live]
                &&& !b.subvols[live].readonly
                &&& b.subvols[live].parent_uuid == Some(a.subvols[snap].uuid)
            },
        forall|p: PathView| #[trigger]
            b.subvols.contains_key(p) ==> a.subvols.contains_key(p) || exists|i: int|
                0 <= i < lookup(c.strain, s.strain)->0.subvolumes.len() && p == path_join(
                    toplevel,
                    #[trigger] lookup(c.strain, s.strain)->0.subvolumes[i] + "-DELETE-"@ + ts,
                ),
        forall|p: PathView| #[trigger] a.subvols.contains_key(p) ==> b.subvols.contains_key(p),
{
    let job = job_of(c, toplevel, s, ts);
    let subs = lookup(c.strain, s.strain)->0.subvolumes;
    let efi = s.efi_synced && c.sys.efi_enabled;
    let m = choose|m: FsState| #[trigger]
        job.swaps(a, m, job.subs.len()) && finished(m, b, job, efi);
    law_finish_spares_the_rest(m, b, job, efi);
    reveal_strlit("-DELETE-");
    reveal_strlit("DELETE");
    reveal_strlit("-");
    assert forall|i: int| 0 <= i < subs.len() implies #[trigger] job.marker(i) == path_join(
        toplevel,
        subs[i] + "-DELETE-"@ + ts,
    ) by {
        assert(crate::restore::marker_name(subs[i], ts) =~= subs[i] + "-DELETE-"@ + ts);
    }
    assert forall|i: int, j: int| 0 <= i < subs.len() && 0 <= j < subs.len() && i != j implies
        #[trigger] job.live(i) != #[trigger] job.live(j) by {
        assert(path_join(toplevel, subs[i]) != path_join(toplevel, subs[j]));
    }
    assert forall|i: int, j: int| 0 <= i < subs.len() && 0 <= j < subs.len() implies
        #[trigger] job.live(i) != #[trigger] job.marker(j) by {
        assert(crate::backend::can_rename(a, job.live(j), job.marker(j)));
        assert(a.subvols.contains_key(job.live(i)));
        crate::path::lemma_within_self(job.live(i), job.live(i));
    }
    assert forall|i: int, j: int| 0 <= i < subs.len() && 0 <= j < subs.len() implies
        #[trigger] job.live(i) != #[trigger] job.snap(j) by {
        assert(job.live(i) == path_join(toplevel, subs[i]));
        assert(job.snap(j) == path_join(
            path_join(toplevel, c.sys.snapshot_subvol),
            subs[j] + "-"@ + s.strain + "-"@ + s.id,
        ));
    }
    law_restore_changes_only_its_subvolumes(a, m, job, job.subs.len());
    assert forall|i: int| 0 <= i < subs.len() implies ({
        let sv = #[trigger] subs[i];
        let live = path_join(toplevel, sv);
        let marker = path_join(toplevel, sv + "-DELETE-"@ + ts);
        let snap = path_join(
            path_join(toplevel, c.sys.snapshot_subvol),
            sv + "-"@ + s.strain + "-"@ + s.id,
        );
        &&& b.subvols.contains_key(live)
        &&& b.subvols.contains_key(marker)
        &&& b.subvols[marker] == a.subvols[live]
        &&& !b.subvols[live].readonly
        &&& b.subvols[live].parent_uuid == Some(a.subvols[snap].uuid)
    }) by {
        assert(job.marker(i) == path_join(toplevel, subs[i] + "-DELETE-"@ + ts));
        assert(job.live(i) == path_join(toplevel, subs[i]));
        assert(a.subvols.contains_key(job.live(i)));
    }
    assert forall|p: PathView| #[trigger] b.subvols.contains_key(p) implies a.subvols.contains_key(
        p,
    ) || exists|i: int|
        0 <= i < subs.len() && p == path_join(toplevel, #[trigger] subs[i] + "-DELETE-"@ + ts) by {
        if !a.subvols.contains_key(p) {
            let i = choose|i: int| 0 <= i < subs.len() && p == #[trigger] job.marker(i);
            assert(p == path_join(toplevel, subs[i] + "-DELETE-"@ + ts));
        }
    }
}

/// Where the snapshot has the EFI partition and the system syncs it, the files
/// at its mount point are afterwards those of the snapshot
/// `<staging>-<strain>-<id>`: as many, at the same places.
pub proof fn law_restore_of_efi(
    a: FsState,
    b: FsState,
    c: ConfigView,
    toplevel: PathView,
    s: InfoView,
    ts: Seq<char>,
    x: PathView,
)
    requires
        restored_at(a, b, c, toplevel, s, ts),
        job_of(c, toplevel, s, ts).sane(),
        s.efi_synced && c.sys.efi_enabled,
        apart(
            path_join(
                path_join(toplevel, c.sys.snapshot_subvol),
                c.sys.staging_subvol + "-"@ + s.strain + "-"@ + s.id,
            ),
            path_of(c.sys.efi_mount),
        ),
        under(x, path_of(c.sys.efi_mount)),
    ensures
        b.files.contains_key(x) <==> b.files.contains_key(
            moved(
                x,
                path_of(c.sys.efi_mount),
                path_join(
                    path_join(toplevel, c.sys.snapshot_subvol),
                    c.sys.staging_subvol + "-"@ + s.strain + "-"@ + s.id,
                ),
            ),
        ),
{
    let job = job_of(c, toplevel, s, ts);
    let mount = path_of(c.sys.efi_mount);
    let snap = path_join(
        path_join(toplevel, c.sys.snapshot_subvol),
        c.sys.staging_subvol + "-"@ + s.strain + "-"@ + s.id,
    );
    assert(job.efi_snap() == snap);
    assert(job.efi_mount() == mount);
    let m = choose|m: FsState| #[trigger]
        job.swaps(a, m, job.subs.len()) && finished(m, b, job, true);
    let k = choose|k: FsState|
        (k == m || k == crate::restore::unlocked(m, job.config, job.toplevel))
            && #[trigger] is_synced(k, b, job.efi_snap(), job.efi_mount());
    let y = moved(x, mount, snap);
    crate::path::lemma_within_self(x, mount);
    crate::path::lemma_moved_back(x, mount, snap);
    assert(!under(y, mount)) by {
        crate::path::lemma_within_self(y, mount);
        if under(y, mount) {
            crate::path::lemma_within_comparable(y, snap, mount);
        }
    }
    assert(b.files.contains_key(y) == k.files.contains_key(y));
}

/// The stale lock that a restore clears is pacman's, in the rootfs subvolume.
pub proof fn law_stale_lock(c: ConfigView, toplevel: PathView)
    ensures
        lock_path(c, toplevel) == path_join(
            path_join(toplevel, c.sys.rootfs_subvol),
            "var/lib/pacman/db.lck"@,
        ),
{
}

/// Recovery moves a subvolume stranded in a marker back to its place in the
/// live subvolume exactly if the live one exists and no subvolume is at that
/// place or inside it; it is then in the marker no more.
pub proof fn law_recovery_returns(
    a: FsState,
    b: FsState,
    t: PathView,
    l: PathView,
    n: nat,
    q: PathView,
)
    requires
        recovery_step(a, b, t, l, n, true),
        apart(t, l),
        is_nested(a, t, q),
    ensures
        ({
            let goes_back = a.subvols.contains_key(l) && forall|x: PathView| #[trigger]
                a.subvols.contains_key(x) ==> !within(x, moved(q, t, l));
            &&& goes_back ==> b.subvols.contains_key(moved(q, t, l)) && b.subvols[moved(q, t, l)]
                == a.subvols[q] && !b.subvols.contains_key(q)
            &&& !goes_back ==> b.subvols.contains_key(q) && b.subvols[q] == a.subvols[q]
        }),
{
    let (nested, flags) = choose|nested: Seq<PathView>, flags: Seq<bool>| #[trigger]
        recovery_by(a, b, t, l, nested, flags) && n == crate::cleanup::recovery::count_set(flags)
            && (true ==> is_nesting(a, t, nested) && forall|j: int|
            #![trigger nested[j]]
            #![trigger flags[j]]
            0 <= j < nested.len() ==> flags[j] == crate::cleanup::recovery::can_return(
                a,
                t,
                l,
                nested[j],
            ));
    assert(is_nesting(a, t, nested));
    assert(nested.contains(q));
    let j = choose|j: int| 0 <= j < nested.len() && nested[j] == q;
    let goes_back = a.subvols.contains_key(l) && forall|x: PathView| #[trigger]
        a.subvols.contains_key(x) ==> !within(x, moved(q, t, l));
    assert(flags[j] == goes_back);
    crate::path::lemma_within_self(q, t);
    crate::path::lemma_within_self(q, q);
    crate::path::lemma_moved_back(q, t, l);
    if goes_back {
        assert(within(q, nested[j]));
        assert(in_moved(nested, flags, q));
        assert(moved(moved(q, t, l), l, t) == q);
        assert(b.subvols.contains_key(moved(q, t, l)));
        assert(!within(q, l)) by {
            if within(q, l) {
                crate::path::lemma_within_comparable(q, t, l);
            }
        }
    } else {
        assert(!in_moved(nested, flags, q)) by {
            if in_moved(nested, flags, q) {
                let k = choose|k: int|
                    0 <= k < flags.len() && k < nested.len() && flags[k] && within(
                        q,
                        #[trigger] nested[k],
                    );
                assert(is_nested(a, t, nested[k]));
            }
        }
        assert(!within(q, l)) by {
            if within(q, l) {
                crate::path::lemma_within_comparable(q, t, l);
            }
        }
    }
}

/// A snapshot command first recovers what an interrupted restore left, then
/// takes the snapshot, protects it where that is asked for, and only then
/// applies retention. What it reports is protected exactly if that was asked
/// for.
pub proof fn law_snapshot_steps(
    states: Seq<FsState>,
    c: ConfigView,
    toplevel: PathView,
    strain: Seq<char>,
    trigger: TriggerKind,
    message: Seq<Seq<char>>,
    protect: bool,
    id: Seq<char>,
    created_at: WallTime,
    now: Moment,
    o: SnapshotOutcome,
)
    requires
        snapshot_run(
            states,
            c,
            toplevel,
            strain,
            trigger,
            message,
            protect,
            true,
            id,
            created_at,
            now,
            o,
        ),
    ensures
        exists|n: nat| #[trigger] recovered(states[0], states[1], c, toplevel, n, true),
        exists|made: InfoView| #[trigger]
            snapshot_made(
                states[1],
                states[2],
                c,
                toplevel,
                strain,
                trigger,
                message,
                id,
                created_at,
                made,
            ),
        o.created@.strain == strain && o.created@.id == id,
        protect ==> (o.created@.metadata matches Some(m) && m.protected),
        !protect ==> states[3] == states[2] && (o.created@.metadata matches Some(m)
            ==> !m.protected),
        !c.sys.auto_apply_retention ==> states[4] == states[3] && o.retention_removed@.len() == 0,
        c.sys.auto_apply_retention ==> exists|x: CleanupSummary| #[trigger]
            swept(states[3], states[4], c, toplevel, false, now, x) && views(x.removed@) == views(
                o.retention_removed@,
            ),
{
    let n = choose|n: nat| #[trigger] recovered(states[0], states[1], c, toplevel, n, true);
    assert(recovered(states[0], states[1], c, toplevel, n, true));
}

/// A cleanup command recovers what an interrupted restore left before it purges
/// anything.
pub proof fn law_cleanup_recovers_first(
    a: FsState,
    b: FsState,
    c: ConfigView,
    toplevel: PathView,
    force: bool,
    now: Moment,
    r: Outcome<CleanupOutcome>,
)
    requires
        cleanup_command(a, b, c, toplevel, force, true, now, r),
        r is Ok,
    ensures
        exists|s1: FsState, n: nat|
            #![trigger recovered(a, s1, c, toplevel, n, true)]
            recovered(a, s1, c, toplevel, n, true) && swept(
                s1,
                b,
                c,
                toplevel,
                force,
                now,
                r->Ok_0.summary,
            ),
{
    let s1 = choose|s1: FsState|
        recovery(a, s1, c, toplevel, true, crate::text::opt_view(r->Ok_0.notice))
            && #[trigger] swept(s1, b, c, toplevel, force, now, r->Ok_0.summary);
    let n = choose|n: nat| #[trigger]
        recovered(a, s1, c, toplevel, n, true) && crate::text::opt_view(r->Ok_0.notice)
            == crate::cli::commands::recovery_notice(
            if n <= usize::MAX {
                n
            } else {
                usize::MAX as nat
            },
        );
    assert(recovered(a, s1, c, toplevel, n, true));
}

/// The part of a snapshot that holds the EFI partition has a file exactly where
/// the partition had one.
pub proof fn law_snapshot_of_efi(
    a: FsState,
    b: FsState,
    c: ConfigView,
    toplevel: PathView,
    strain: Seq<char>,
    id: Seq<char>,
    x: PathView,
)
    requires
        taken(a, b, c, toplevel, strain, id),
        lookup(c.strain, strain)->0.efi && c.sys.efi_enabled,
        efi_separate(c, toplevel, strain, id),
        under(
            x,
            path_join(
                path_join(toplevel, c.sys.snapshot_subvol),
                c.sys.staging_subvol + "-"@ + strain + "-"@ + id,
            ),
        ),
    ensures
        b.files.contains_key(x) <==> a.files.contains_key(
            moved(
                x,
                path_join(
                    path_join(toplevel, c.sys.snapshot_subvol),
                    c.sys.staging_subvol + "-"@ + strain + "-"@ + id,
                ),
                path_of(c.sys.efi_mount),
            ),
        ),
{
}

/// What blocks an operation is told in full: every error among the findings,
/// and nothing but errors.
pub proof fn law_blocking_findings(v: Seq<FindingView>, t: Seq<char>)
    ensures
        error_texts(v).contains(t) <==> exists|i: int|
            0 <= i < v.len() && (#[trigger] v[i]).severity == Severity::Error && t == v[i].check
                + ": "@ + v[i].message,
    decreases v.len(),
{
    if v.len() > 0 {
        let u = v.drop_last();
        law_blocking_findings(u, t);
        let (m, first) = (error_texts(v), error_texts(u));
        assert(v[v.len() - 1] == v.last());
        if first.contains(t) {
            let k = choose|k: int| 0 <= k < first.len() && first[k] == t;
            assert(m[k] == t);
            let i = choose|i: int|
                0 <= i < u.len() && (#[trigger] u[i]).severity == Severity::Error && t == u[i].check
                    + ": "@ + u[i].message;
            assert(v[i] == u[i]);
        } else if m.contains(t) {
            let k = choose|k: int| 0 <= k < m.len() && m[k] == t;
            if k < first.len() {
                assert(first[k] == t);
            }
        }
        if exists|i: int|
            0 <= i < v.len() && (#[trigger] v[i]).severity == Severity::Error && t == v[i].check
                + ": "@ + v[i].message {
            let i = choose|i: int|
                0 <= i < v.len() && (#[trigger] v[i]).severity == Severity::Error && t == v[i].check
                    + ": "@ + v[i].message;
            if i < u.len() {
                assert(u[i] == v[i]);
            } else {
                assert(m[first.len() as int] == t);
            }
        }
    }
}

/// Deleting one snapshot takes all its parts and its sidecar, and it is the one
/// that the reference names.
pub proof fn law_delete_one(
    a: FsState,
    b: FsState,
    c: ConfigView,
    toplevel: PathView,
    strain: Option<Seq<char>>,
    id: Seq<char>,
    o: DeleteOutcome,
)
    requires
        deletion(a, b, c, toplevel, TargetView::Single { strain, id }, o),
    ensures
        views(o.deleted@) == seq![id],
        exists|all: Seq<InfoView>, s: InfoView| #[trigger]
            discovered(a, c, toplevel, all) && #[trigger] all.contains(s) && s.id == id
                && s.strain == o.strain@ && (strain matches Some(x) ==> s.strain == x) && (forall|
                i: int,
            |
                0 <= i < s.subvolumes.len() ==> !b.subvols.contains_key(
                    path_join(
                        path_join(toplevel, c.sys.snapshot_subvol),
                        #[trigger] s.subvolumes[i] + "-"@ + s.strain + "-"@ + id,
                    ),
                )) && !b.files.contains_key(
                path_join(
                    path_join(toplevel, c.sys.snapshot_subvol),
                    s.strain + "-"@ + id + ".meta.toml"@,
                ),
            ),
{
    let all = choose|all: Seq<InfoView>| #[trigger]
        discovered(a, c, toplevel, all) && matching(all, id, strain).len() == 1 && ({
            let s = matching(all, id, strain)[0];
            s.strain == o.strain@ && crate::backend::effects::pruned(
                a,
                b,
                info_paths(c, toplevel, s),
                seq![crate::snapshot::operations::info_sidecar(c, toplevel, s)],
                true,
            )
        });
    let s = matching(all, id, strain)[0];
    crate::laws::listing::law_named_snapshots(all, id, strain, s);
    assert(matching(all, id, strain).contains(s));
    let paths = info_paths(c, toplevel, s);
    assert forall|i: int| 0 <= i < s.subvolumes.len() implies !b.subvols.contains_key(
        path_join(
            path_join(toplevel, c.sys.snapshot_subvol),
            #[trigger] s.subvolumes[i] + "-"@ + s.strain + "-"@ + id,
        ),
    ) by {
        reveal(gone);
        let p = paths[i];
        assert(p.take(p.len() as int) =~= p);
        if b.subvols.contains_key(p) {
            assert(a.subvols.contains_key(paths[i]));
            assert(gone(a, paths, p));
        }
    }
    let file = crate::snapshot::operations::info_sidecar(c, toplevel, s);
    assert(seq![file][0] == file);
    assert(seq![file].contains(file));
}

/// The plan of a strain has a row for each snapshot of the strain and no other,
/// newest first; a row keeps exactly what the policy keeps.
pub proof fn law_plan_of_strain(
    all: Seq<InfoView>,
    strain: Seq<char>,
    s: StrainView,
    id: Seq<char>,
)
    ensures
        (exists|i: int|
            0 <= i < strain_plan(all, strain, s).entries.len() && (#[trigger] strain_plan(
                all,
                strain,
                s,
            ).entries[i]).id == id) <==> exists|k: int|
            0 <= k < all.len() && (#[trigger] all[k]).strain == strain && all[k].id == id,
        forall|i: int|
            0 <= i < strain_plan(all, strain, s).entries.len() ==> ((#[trigger] strain_plan(
                all,
                strain,
                s,
            ).entries[i]).action is Keep <==> is_kept(
                of_strain(all, strain),
                s.retain,
                strain_plan(all, strain, s).entries[i].id,
            )),
        forall|i: int, j: int|
            0 <= i < j < strain_plan(all, strain, s).entries.len() ==> !crate::text::text_less(
                (#[trigger] strain_plan(all, strain, s).entries[i]).id,
                (#[trigger] strain_plan(all, strain, s).entries[j]).id,
            ),
{
    let v = of_strain(all, strain);
    let ids = crate::retention::info_ids(v);
    let sorted = crate::retention::newest_first(ids);
    let e = strain_plan(all, strain, s).entries;
    crate::retention::law_newest_first_sorts(ids);
    crate::retention::lemma_sorted_member(ids, id);
    assert forall|i: int, j: int| 0 <= i < j < e.len() implies !crate::text::text_less(
        (#[trigger] e[i]).id,
        (#[trigger] e[j]).id,
    ) by {
        assert(e[i].id == sorted[i] && e[j].id == sorted[j]);
    }
    if exists|i: int| 0 <= i < e.len() && (#[trigger] e[i]).id == id {
        let i = choose|i: int| 0 <= i < e.len() && (#[trigger] e[i]).id == id;
        assert(sorted[i] == id);
        let k = choose|k: int| 0 <= k < ids.len() && ids[k] == id;
        law_snapshots_of_strain(all, strain, v[k]);
        assert(v.contains(v[k]));
        let m = choose|m: int| 0 <= m < all.len() && all[m] == v[k];
        assert(all[m].id == id && all[m].strain == strain);
    }
    if exists|k: int| 0 <= k < all.len() && (#[trigger] all[k]).strain == strain && all[k].id == id {
        let k = choose|k: int|
            0 <= k < all.len() && (#[trigger] all[k]).strain == strain && all[k].id == id;
        assert(all.contains(all[k]));
        law_snapshots_of_strain(all, strain, all[k]);
        let j = choose|j: int| 0 <= j < v.len() && v[j] == all[k];
        assert(ids[j] == id);
        let i = choose|i: int| 0 <= i < sorted.len() && sorted[i] == id;
        assert(e[i].id == id);
    }
}

/// The notice of a recovery is given exactly if something was put back, and says
/// how much.
pub proof fn law_recovery_notice(n: nat)
    ensures
        recovery_notice(n) is Some <==> n > 0,
        recovery_notice(n) matches Some(t) ==> occurs(crate::text::dec(n), t),
{
    if n > 0 {
        let t = recovery_notice(n)->0;
        let (a, b) = (
            "Recovered "@,
            " orphaned nested subvolume(s) from a previous interrupted restore."@,
        );
        crate::laws::setup::lemma_occurs(a, crate::text::dec(n), b, t);
    }
}

/// Deleting all of a strain is told as such, for that strain.
pub proof fn law_delete_all(
    a: FsState,
    b: FsState,
    c: ConfigView,
    toplevel: PathView,
    strain: Seq<char>,
    o: DeleteOutcome,
)
    requires
        deletion(a, b, c, toplevel, TargetView::AllInStrain { strain }, o),
    ensures
        !o.single,
        o.strain@ == strain,
        exists|all: Seq<InfoView>| #[trigger]
            discovered(a, c, toplevel, all) && forall|k: int|
                0 <= k < all.len() && (#[trigger] all[k]).strain == strain ==> if is_protected(
                    all[k].metadata,
                ) {
                    views(o.skipped_protected@).contains(all[k].id)
                } else {
                    views(o.deleted@).contains(all[k].id)
                },
{
    law_delete_strain(a, b, c, toplevel, strain, o);
}

} // verus!
