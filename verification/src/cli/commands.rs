//! The commands, from recovery of an interrupted restore to their result.
//!
//! A command that fails gives the message of its error: what it was doing,
//! then why that failed.

use vstd::prelude::*;
use vstd::string::*;

use crate::assoc::lookup;
use crate::backend::{is_nesting, removable, FileSystemBackend, FsState};
use crate::check::{self, finding_views, Finding, FindingView, Severity};
use crate::cleanup::policy::{
    aged_out_purged, all_markers_purged, cleaned, may_plan, owes_cleanup, purged_and_thinned,
    CleanupSummary, RetentionPlan,
};
use crate::cleanup::recovery::{recover_orphaned_nested_subvols, recovered};
use crate::cleanup::{
    apply_retention_force, apply_retention_with_now, plan_retention_with_now,
};
use crate::config::{Config, ConfigView};
use crate::document::all_quotes_fit;
use crate::error::{ErrorView, RevenantError};
use crate::metadata::{
    is_orphan, is_protected, sidecar_at, sidecar_in, sidecar_name, storable,
    strictly_ascending, TriggerKind,
};
use crate::path::{is_component, path_join, FsPath, PathView};
use crate::preflight::{blocking_summary, has_error, machines_finding, preflight_restore};
use crate::restore::{
    absent_parts, interrupted_at, restorable_at, restore_snapshot_at, restored_at,
};
use crate::snapshot::discovery::{
    discover_snapshots, discovered, find_snapshot, live_of, live_told, matching,
    may_discover, resolve_live_parent, selection_error, strain_parts, LiveParentRef,
};
use crate::snapshot::info::{infos, snap_dir_of, InfoView, SnapshotInfo};
use crate::snapshot::id::{is_clock_id, SnapshotId};
use crate::snapshot::operations::{
    all_removable, all_deletable, bulk_deleted, chosen, create_snapshot_at, delete_all_strain,
    delete_snapshot, deleted_all, info_paths, info_sidecar, lemma_deleted_none, lemma_deleted_push,
    new_record, ready, recorded, taken, update_snapshot_metadata, BulkDeleteOutcome, MetadataPatch,
};
use crate::backend::effects::{grown, lemma_grown_refl, lemma_pruned_weaken, pruned};
use crate::snapshot::target::{SnapshotTarget, TargetView};
use crate::text::{cat2, cat3, clone_texts, dec, decimal, opt_str, opt_view, same_text, views};
use crate::clock::{local_now, utc_now, Moment, WallTime};

verus! {

/// The result of a command, or the message of its error.
pub type Outcome<T> = core::result::Result<T, String>;

/// The message of an error: what was being done, then why it failed.
pub open spec fn failure(context: Seq<char>, e: ErrorView) -> Seq<char> {
    context + ": "@ + e.text()
}

fn failed(context: &str, e: &RevenantError) -> (r: String)
    ensures
        r@ == failure(context@, e@),
{
    cat3(context, ": ", e.message().as_str())
}

/// The notice that nested subvolumes were recovered.
pub open spec fn recovery_notice(n: nat) -> Option<Seq<char>> {
    if n > 0 {
        Some(
            "Recovered "@ + dec(n)
                + " orphaned nested subvolume(s) from a previous interrupted restore."@,
        )
    } else {
        None
    }
}

/// Whether recovery of an interrupted restore turned `a` into `b`, with the
/// given notice.
pub open spec fn recovery(
    a: FsState,
    b: FsState,
    c: ConfigView,
    toplevel: PathView,
    exact: bool,
    notice: Option<Seq<char>>,
) -> bool {
    exists|n: nat| #[trigger]
        recovered(a, b, c, toplevel, n, exact) && notice == recovery_notice(
            if n <= usize::MAX {
                n
            } else {
                usize::MAX as nat
            },
        )
}

/// Whether recovery of an interrupted restore turned `a` into `b`.
pub open spec fn recovers(a: FsState, b: FsState, c: ConfigView, toplevel: PathView) -> bool {
    exists|notice: Option<Seq<char>>| #[trigger] recovery(a, b, c, toplevel, true, notice)
}

/// Whether recovery of an interrupted restore, if any took place, turned `a`
/// into `b`.
pub open spec fn may_recover(
    a: FsState,
    b: FsState,
    c: ConfigView,
    toplevel: PathView,
    exact: bool,
) -> bool {
    b == a || exists|notice: Option<Seq<char>>| #[trigger]
        recovery(a, b, c, toplevel, exact, notice)
}

/// Recover from an interrupted restore before a command that changes
/// something. Gives the notice to show.
pub fn recover_pending_orphans<B: FileSystemBackend>(
    config: &Config,
    backend: &mut B,
    toplevel: &FsPath,
) -> (r: Outcome<Option<String>>)
    ensures
        final(backend).reliable() == old(backend).reliable(),
        r is Err ==> final(backend).state() == old(backend).state(),
        old(backend).reliable() ==> r is Ok,
        r is Ok ==> recovery(
            old(backend).state(),
            final(backend).state(),
            config@,
            toplevel@,
            old(backend).reliable(),
            opt_view(r->Ok_0),
        ),
{
    match recover_orphaned_nested_subvols(config, backend, toplevel) {
        Ok(n) => {
            if n > 0 {
                Ok(
                    Some(
                        cat3(
                            "Recovered ",
                            decimal(n as u64).as_str(),
                            " orphaned nested subvolume(s) from a previous interrupted restore.",
                        ),
                    ),
                )
            } else {
                Ok(None)
            }
        },
        Err(e) => Err(failed("orphan recovery failed", &e)),
    }
}

/// Whether taking the snapshot `id` of `strain`, at `created_at`, turned `a`
/// into `b`, described by `info`.
pub open spec fn snapshot_made(
    a: FsState,
    b: FsState,
    c: ConfigView,
    toplevel: PathView,
    strain: Seq<char>,
    trigger: TriggerKind,
    message: Seq<Seq<char>>,
    id: Seq<char>,
    created_at: WallTime,
    info: InfoView,
) -> bool {
    let s = lookup(c.strain, strain)->0;
    &&& lookup(c.strain, strain) is Some
    &&& info.id == id
    &&& info.strain == strain
    &&& info.subvolumes == strain_parts(c, s)
    &&& info.efi_synced == (s.efi && c.sys.efi_enabled)
    &&& info.metadata is None || info.metadata == Some(new_record(created_at, trigger, message))
    &&& exists|mid: FsState| #[trigger]
        taken(a, mid, c, toplevel, strain, id) && recorded(
            mid,
            b,
            sidecar_at(snap_dir_of(c, toplevel), strain, id),
            info.metadata,
        )
}

/// What a `snapshot` command did.
#[derive(Debug)]
pub struct SnapshotOutcome {
    pub notice: Option<String>,
    pub created: SnapshotInfo,
    pub retention_removed: Vec<String>,
}

/// Whether a cleanup at `now` turned `a` into `b` and removed what `o` says.
pub open spec fn swept(
    a: FsState,
    b: FsState,
    c: ConfigView,
    toplevel: PathView,
    force: bool,
    now: Moment,
    o: CleanupSummary,
) -> bool {
    exists|s1: FsState, s2: FsState, all: Seq<InfoView>, purged: Seq<Seq<char>>|
        (if force {
            all_markers_purged(a, s1, c, toplevel, purged)
        } else {
            aged_out_purged(a, s1, c, toplevel, now, purged)
        }) && #[trigger] cleaned(s1, s2, b, c, toplevel, all, purged, o)
}

/// Whether a cleanup of `a` at `now` succeeds where it has to: where no
/// snapshot to delete holds a nested subvolume.
pub open spec fn sweep_owed(
    a: FsState,
    c: ConfigView,
    toplevel: PathView,
    force: bool,
    now: Moment,
    ok: bool,
) -> bool {
    if force {
        exists|s1: FsState, all: Seq<InfoView>, purged: Seq<Seq<char>>| #[trigger]
            all_markers_purged(a, s1, c, toplevel, purged) && #[trigger] owes_cleanup(
                s1,
                c,
                toplevel,
                all,
                ok,
            )
    } else {
        exists|s1: FsState, all: Seq<InfoView>, purged: Seq<Seq<char>>| #[trigger]
            aged_out_purged(a, s1, c, toplevel, now, purged) && #[trigger] owes_cleanup(
                s1,
                c,
                toplevel,
                all,
                ok,
            )
    }
}

/// Whether the retention that follows a snapshot, at `now`, turned `a` into
/// `b` and removed `removed`: a cleanup, or nothing where it is switched off.
pub open spec fn retained(
    a: FsState,
    b: FsState,
    c: ConfigView,
    toplevel: PathView,
    now: Moment,
    removed: Seq<Seq<char>>,
) -> bool {
    if c.sys.auto_apply_retention {
        exists|o: CleanupSummary| #[trigger]
            swept(a, b, c, toplevel, false, now, o) && views(o.removed@) == removed
    } else {
        b == a && removed.len() == 0
    }
}

/// Whether `b` is `a` with the sidecar of `s` edited by `patch`.
pub open spec fn edited(
    a: FsState,
    b: FsState,
    c: ConfigView,
    toplevel: PathView,
    s: InfoView,
    patch: MetadataPatch,
) -> bool {
    let path = info_sidecar(c, toplevel, s);
    &&& sidecar_in(a, path) is Some
    &&& recorded(a, b, path, Some(patch.applied(sidecar_in(a, path)->0)))
}

/// Whether `b` is `a` with a new snapshot marked as protected, where that was
/// asked for.
pub open spec fn marked(
    a: FsState,
    b: FsState,
    c: ConfigView,
    toplevel: PathView,
    s: InfoView,
    protect: bool,
) -> bool {
    if protect {
        exists|p: MetadataPatch|
            p.protected == Some(true) && p.message is None && #[trigger] edited(
                a,
                b,
                c,
                toplevel,
                s,
                p,
            )
    } else {
        b == a
    }
}

/// Whether a `snapshot` command that found the system in `a` after recovery
/// succeeds where it has to. Once the snapshot is taken, it fails only where
/// it is to be protected and its record cannot be written and read back, or
/// where the cleanup that follows fails.
pub open spec fn snapshot_owed(
    a: FsState,
    c: ConfigView,
    toplevel: PathView,
    strain: Seq<char>,
    trigger: TriggerKind,
    message: Seq<Seq<char>>,
    protect: bool,
    id: Seq<char>,
    created_at: WallTime,
    now: Moment,
    ok: bool,
) -> bool {
    ok || !ready(a, c, toplevel, strain, id) || (protect && !(storable(
        new_record(created_at, trigger, message),
    ) && all_quotes_fit(message) && is_component(sidecar_name(strain, id)))) || (c.sys.auto_apply_retention && exists|m: FsState, made: InfoView, k: FsState| #[trigger]
        snapshot_made(a, m, c, toplevel, strain, trigger, message, id, created_at, made)
            && #[trigger] marked(m, k, c, toplevel, made, protect) && sweep_owed(
            k,
            c,
            toplevel,
            false,
            now,
            ok,
        ))
}

/// Whether `b` is what a `snapshot` command that found the system in `a` after
/// recovery may leave when it fails: nothing that was there is lost, but for
/// what a cleanup may take once the snapshot is made.
pub open spec fn snapshot_failed(
    a: FsState,
    b: FsState,
    c: ConfigView,
    toplevel: PathView,
    strain: Seq<char>,
    trigger: TriggerKind,
    message: Seq<Seq<char>>,
    protect: bool,
    id: Seq<char>,
    created_at: WallTime,
) -> bool {
    grown(a, b) || exists|m: FsState, made: InfoView| #[trigger]
        snapshot_made(a, m, c, toplevel, strain, trigger, message, id, created_at, made) && {
            ||| b == m
            ||| c.sys.auto_apply_retention && exists|k: FsState| #[trigger]
                marked(m, k, c, toplevel, made, protect) && purged_and_thinned(k, b, c, toplevel)
        }
}

/// The states that a `snapshot` command went through: after recovery, after
/// the snapshot was taken, after it was protected, at the end.
pub open spec fn snapshot_run(
    states: Seq<FsState>,
    c: ConfigView,
    toplevel: PathView,
    strain: Seq<char>,
    trigger: TriggerKind,
    message: Seq<Seq<char>>,
    protect: bool,
    exact: bool,
    id: Seq<char>,
    created_at: WallTime,
    now: Moment,
    o: SnapshotOutcome,
) -> bool {
    &&& states.len() == 5
    &&& recovery(states[0], states[1], c, toplevel, exact, opt_view(o.notice))
    &&& exists|made: InfoView| #[trigger]
        snapshot_made(
            states[1],
            states[2],
            c,
            toplevel,
            strain,
            trigger,
            message,
            id,
            created_at,
            made,
        ) && o.created@ == (InfoView { metadata: o.created@.metadata, ..made }) && if protect {
            exists|p: MetadataPatch|
                p.protected == Some(true) && p.message is None && #[trigger] edited(
                    states[2],
                    states[3],
                    c,
                    toplevel,
                    made,
                    p,
                ) && o.created@.metadata == Some(
                    p.applied(sidecar_in(states[2], info_sidecar(c, toplevel, made))->0),
                )
        } else {
            states[3] == states[2] && o.created@.metadata == made.metadata
        }
    &&& exact && is_component(sidecar_name(strain, id)) && all_quotes_fit(message)
        ==> o.created@.metadata is Some
    &&& exact ==> retained(states[3], states[4], c, toplevel, now, views(o.retention_removed@))
    &&& if c.sys.auto_apply_retention {
        purged_and_thinned(states[3], states[4], c, toplevel)
    } else {
        states[4] == states[3] && o.retention_removed@.len() == 0
    }
}

/// Whether a `snapshot` command that found the system in `a` and left it in
/// `b` gives `r`, where the snapshot is `id`, taken at `created_at`, and
/// retention is applied at `now`.
pub open spec fn snapshot_command(
    a: FsState,
    b: FsState,
    c: ConfigView,
    toplevel: PathView,
    strain: Seq<char>,
    trigger: TriggerKind,
    message: Seq<Seq<char>>,
    protect: bool,
    exact: bool,
    id: Seq<char>,
    created_at: WallTime,
    now: Moment,
    r: Outcome<SnapshotOutcome>,
) -> bool {
    &&& r is Ok ==> exists|states: Seq<FsState>|
        states[0] == a && states[4] == b && #[trigger] snapshot_run(
            states,
            c,
            toplevel,
            strain,
            trigger,
            message,
            protect,
            exact,
            id,
            created_at,
            now,
            r->Ok_0,
        )
    &&& exact && lookup(c.strain, strain) is None ==> r is Err && r->Err_0@ == failure(
        "failed to create snapshot"@,
        ErrorView::Config("unknown strain: "@ + strain),
    ) && recovers(a, b, c, toplevel)
    &&& exact ==> exists|s1: FsState| #[trigger]
        recovers(a, s1, c, toplevel) && snapshot_owed(
            s1,
            c,
            toplevel,
            strain,
            trigger,
            message,
            protect,
            id,
            created_at,
            now,
            r is Ok,
        )
    &&& r is Err ==> exists|s1: FsState| #[trigger]
        may_recover(a, s1, c, toplevel, exact) && snapshot_failed(
            s1,
            b,
            c,
            toplevel,
            strain,
            trigger,
            message,
            protect,
            id,
            created_at,
        )
}

/// Create the snapshot `id`, as taken at `created_at`, then apply retention at
/// `now` where that is switched on.
pub fn cmd_snapshot_at<B: FileSystemBackend>(
    config: &Config,
    backend: &mut B,
    toplevel: &FsPath,
    strain: &str,
    trigger: TriggerKind,
    message: Vec<String>,
    protect: bool,
    id: SnapshotId,
    created_at: WallTime,
    now: Moment,
) -> (r: Outcome<SnapshotOutcome>)
    requires
        created_at.wf(),
        now.wf(),
    ensures
        final(backend).reliable() == old(backend).reliable(),
        snapshot_command(
            old(backend).state(),
            final(backend).state(),
            config@,
            toplevel@,
            strain@,
            trigger,
            views(message@),
            protect,
            old(backend).reliable(),
            id@,
            created_at,
            now,
            r,
        ),
{
    let ghost a = backend.state();
    let ghost exact = backend.reliable();
    let ghost items = views(message@);
    let ghost the_id = id@;
    let notice = match recover_pending_orphans(config, backend, toplevel) {
        Ok(n) => n,
        Err(e) => {
            proof {
                lemma_grown_refl(a);
                assert(may_recover(a, a, config@, toplevel@, exact));
            }
            return Err(e);
        },
    };
    let ghost s1 = backend.state();
    proof {
        assert(recovery(a, s1, config@, toplevel@, exact, opt_view(notice)));
        assert(may_recover(a, s1, config@, toplevel@, exact));
        assert(exact ==> recovers(a, s1, config@, toplevel@));
    }
    let info = match create_snapshot_at(
        config,
        backend,
        toplevel,
        strain,
        trigger,
        message,
        id,
        created_at,
    ) {
        Ok(i) => i,
        Err(e) => {
            return Err(failed("failed to create snapshot", &e));
        },
    };
    let ghost s2 = backend.state();
    let ghost made = info@;
    assert(snapshot_made(
        s1,
        s2,
        config@,
        toplevel@,
        strain@,
        trigger,
        items,
        the_id,
        created_at,
        made,
    ));
    let created = if protect {
        let patch = MetadataPatch { protected: Some(true), message: None };
        match update_snapshot_metadata(config, backend, toplevel, &info, &patch) {
            Ok(m) => {
                assert(edited(s2, backend.state(), config@, toplevel@, made, patch));
                SnapshotInfo {
                    id: info.id,
                    strain: info.strain,
                    subvolumes: info.subvolumes,
                    efi_synced: info.efi_synced,
                    metadata: Some(m),
                }
            },
            Err(e) => {
                return Err(failed("failed to protect snapshot", &e));
            },
        }
    } else {
        info
    };
    let ghost s3 = backend.state();
    let mut retention_removed: Vec<String> = Vec::new();
    assert(marked(s2, s3, config@, toplevel@, made, protect));
    if config.sys.auto_apply_retention {
        let done = apply_retention_with_now(config, backend, toplevel, now);
        assert(exact ==> sweep_owed(s3, config@, toplevel@, false, now, done is Ok));
        match done {
            Ok(o) => {
                assert(exact ==> swept(s3, backend.state(), config@, toplevel@, false, now, o));
                retention_removed = o.removed;
            },
            Err(e) => {
                let out: Outcome<SnapshotOutcome> = Err(failed("retention cleanup failed", &e));
                proof {
                    assert(exact ==> sweep_owed(s3, config@, toplevel@, false, now, out is Ok));
                    assert(purged_and_thinned(s3, backend.state(), config@, toplevel@));
                }
                return out;
            },
        }
    }
    let out: Outcome<SnapshotOutcome> = Ok(SnapshotOutcome { notice, created, retention_removed });
    proof {
        let states = seq![a, s1, s2, s3, backend.state()];
        assert(exact ==> retained(
            s3,
            backend.state(),
            config@,
            toplevel@,
            now,
            views(out->Ok_0.retention_removed@),
        ));
        assert(snapshot_run(
            states,
            config@,
            toplevel@,
            strain@,
            trigger,
            items,
            protect,
            exact,
            the_id,
            created_at,
            now,
            out->Ok_0,
        ));
    }
    out
}

/// Create a snapshot, then apply retention where that is switched on.
///
/// The ID and the times are the clock's; what is done with them is what
/// [`cmd_snapshot_at`] does.
pub fn cmd_snapshot<B: FileSystemBackend>(
    config: &Config,
    backend: &mut B,
    toplevel: &FsPath,
    strain: &str,
    trigger: TriggerKind,
    message: Vec<String>,
    protect: bool,
) -> (r: Outcome<SnapshotOutcome>)
    ensures
        final(backend).reliable() == old(backend).reliable(),
        exists|id: Seq<char>, created_at: WallTime, now: Moment|
            is_clock_id(id) && created_at.wf() && now.of_clock() && #[trigger] snapshot_command(
                old(backend).state(),
                final(backend).state(),
                config@,
                toplevel@,
                strain@,
                trigger,
                views(message@),
                protect,
                old(backend).reliable(),
                id,
                created_at,
                now,
                r,
            ),
{
    let id = SnapshotId::now();
    let created_at = local_now();
    let now = utc_now();
    cmd_snapshot_at(
        config,
        backend,
        toplevel,
        strain,
        trigger,
        message,
        protect,
        id,
        created_at,
        now,
    )
}

/// Whether a snapshot is one that a reference names.
pub open spec fn names(t: TargetView, s: InfoView) -> bool {
    match t {
        TargetView::Single { strain, id } => s.id == id && (strain is None || s.strain
            == strain->0),
        TargetView::AllInStrain { strain } => s.strain == strain,
    }
}

/// Those of the snapshots that a filter lets through.
pub open spec fn filtered(v: Seq<InfoView>, t: Option<TargetView>) -> Seq<InfoView>
    decreases v.len(),
{
    if v.len() == 0 {
        Seq::empty()
    } else {
        let before = filtered(v.drop_last(), t);
        if t is None || names(t->0, v.last()) {
            before.push(v.last())
        } else {
            before
        }
    }
}

/// A filter with its texts.
pub open spec fn opt_target(t: Option<&SnapshotTarget>) -> Option<TargetView> {
    match t {
        Some(x) => Some(x@),
        None => None,
    }
}

/// Those of the snapshots that a filter lets through.
pub fn filter_snapshots(all: Vec<SnapshotInfo>, target: Option<&SnapshotTarget>) -> (r: Vec<
    SnapshotInfo,
>)
    ensures
        infos(r@) == filtered(infos(all@), opt_target(target)),
        forall|s: InfoView| #[trigger]
            infos(r@).contains(s) <==> infos(all@).contains(s) && (match opt_target(target) {
                None => true,
                Some(TargetView::AllInStrain { strain }) => s.strain == strain,
                Some(TargetView::Single { strain, id }) => s.id == id && (strain matches Some(x)
                    ==> s.strain == x),
            }),
{
    let ghost v = infos(all@);
    let ghost t = opt_target(target);
    let mut rest = all;
    let mut back: Vec<SnapshotInfo> = Vec::new();
    let mut out: Vec<SnapshotInfo> = Vec::new();
    while rest.len() > 0
        invariant
            infos(rest@) + infos(back@).reverse() == v,
        decreases rest.len(),
    {
        let ghost r0 = rest@;
        let ghost b0 = back@;
        match rest.pop() {
            Some(s) => {
                back.push(s);
                proof {
                    assert(r0.last() == s);
                    assert(infos(rest@) =~= infos(r0).drop_last());
                    assert(infos(back@) =~= infos(b0).push(s@));
                    assert(infos(rest@) + infos(back@).reverse() =~= infos(r0) + infos(
                        b0,
                    ).reverse());
                }
            },
            None => {},
        }
    }
    proof {
        assert(infos(rest@) =~= Seq::empty());
        assert(infos(back@).reverse() =~= v);
        assert(v.take(0) =~= Seq::empty());
        assert(infos(out@) =~= filtered(v.take(0), t));
    }
    let ghost mut done: int = 0;
    while back.len() > 0
        invariant
            0 <= done <= v.len(),
            back@.len() == v.len() - done,
            infos(back@).reverse() == v.skip(done),
            t == opt_target(target),
            infos(out@) == filtered(v.take(done), t),
        decreases back.len(),
    {
        let ghost b0 = back@;
        let ghost o0 = out@;
        match back.pop() {
            Some(s) => {
                proof {
                    let n = b0.len() as int;
                    assert(infos(b0).reverse()[0] == infos(b0)[n - 1]);
                    assert(v.skip(done)[0] == v[done]);
                    assert(s@ == v[done]);
                    assert(v.take(done + 1).drop_last() =~= v.take(done));
                    assert(v.take(done + 1).last() == s@);
                    assert(infos(back@) =~= infos(b0).drop_last());
                    assert(infos(back@).reverse() =~= infos(b0).reverse().skip(1));
                    assert(v.skip(done).skip(1) =~= v.skip(done + 1));
                }
                let keep = match target {
                    None => true,
                    Some(x) => match x {
                        SnapshotTarget::Single { strain, id } => same_text(
                            s.id.as_str(),
                            id.as_str(),
                        ) && (match strain {
                            None => true,
                            Some(w) => same_text(s.strain.as_str(), w.as_str()),
                        }),
                        SnapshotTarget::AllInStrain { strain } => same_text(
                            s.strain.as_str(),
                            strain.as_str(),
                        ),
                    },
                };
                if keep {
                    out.push(s);
                    assert(infos(out@) =~= infos(o0).push(s@));
                }
                proof {
                    done = done + 1;
                }
            },
            None => {},
        }
    }
    proof {
        assert(v.take(done) =~= v);
        assert forall|s: InfoView| #[trigger]
            infos(out@).contains(s) <==> v.contains(s) && (match t {
            None => true,
            Some(TargetView::AllInStrain { strain }) => s.strain == strain,
            Some(TargetView::Single { strain, id }) => s.id == id && (strain matches Some(x)
                ==> s.strain == x),
        }) by {
            crate::laws::listing::lemma_filtered(v, t, s);
        }
    }
    out
}

/// What a `list` command found.
#[derive(Debug)]
pub struct ListOutcome {
    pub snapshots: Vec<SnapshotInfo>,
    pub live_parent: Option<LiveParentRef>,
}

/// List the snapshots that a filter lets through.
pub fn cmd_list<B: FileSystemBackend>(
    config: &Config,
    backend: &B,
    toplevel: &FsPath,
    target: Option<&SnapshotTarget>,
) -> (r: Outcome<ListOutcome>)
    ensures
        backend.reliable() ==> r is Ok,
        match r {
            Ok(o) => (exists|all: Seq<InfoView>| #[trigger]
                may_discover(backend.state(), config@, toplevel@, all, backend.reliable()) && infos(
                    o.snapshots@,
                ) == filtered(all, opt_target(target)) && forall|s: InfoView| #[trigger]
                    infos(o.snapshots@).contains(s) <==> all.contains(s) && (match opt_target(
                        target,
                    ) {
                        None => true,
                        Some(TargetView::AllInStrain { strain }) => s.strain == strain,
                        Some(TargetView::Single { strain, id }) => s.id == id && (
                        strain matches Some(x) ==> s.strain == x),
                    })) && live_told(
                backend.state(),
                config@,
                toplevel@,
                live_of(o.live_parent),
                backend.reliable(),
            ),
            Err(m) => exists|e: ErrorView| m@ == #[trigger] failure(
                "failed to discover snapshots"@,
                e,
            ),
        },
{
    let all = match discover_snapshots(config, backend, toplevel) {
        Ok(v) => v,
        Err(e) => {
            return Err(failed("failed to discover snapshots", &e));
        },
    };
    let snapshots = filter_snapshots(all, target);
    let live_parent = resolve_live_parent(config, backend, toplevel);
    assert(live_told(
        backend.state(),
        config@,
        toplevel@,
        live_of(live_parent),
        backend.reliable(),
    ));
    let out: Outcome<ListOutcome> = Ok(ListOutcome { snapshots, live_parent });
    out
}

/// Show the status: all snapshots.
pub fn cmd_status<B: FileSystemBackend>(config: &Config, backend: &B, toplevel: &FsPath) -> (r:
    Outcome<Vec<SnapshotInfo>>)
    ensures
        backend.reliable() ==> r is Ok,
        match r {
            Ok(v) => may_discover(
                backend.state(),
                config@,
                toplevel@,
                infos(v@),
                backend.reliable(),
            ),
            Err(m) => exists|e: ErrorView| m@ == #[trigger] failure(
                "failed to discover snapshots"@,
                e,
            ),
        },
{
    match discover_snapshots(config, backend, toplevel) {
        Ok(v) => Ok(v),
        Err(e) => Err(failed("failed to discover snapshots", &e)),
    }
}

/// Preview a cleanup at `now`.
pub fn cmd_cleanup_plan_at<B: FileSystemBackend>(
    config: &Config,
    backend: &B,
    toplevel: &FsPath,
    force: bool,
    now: Moment,
) -> (r: Outcome<RetentionPlan>)
    ensures
        backend.reliable() ==> r is Ok,
        match r {
            Ok(p) => may_plan(
                backend.state(),
                config@,
                toplevel@,
                now,
                force,
                p,
                backend.reliable(),
            ),
            Err(m) => exists|e: ErrorView| m@ == #[trigger] failure("cleanup dry-run failed"@, e),
        },
{
    match plan_retention_with_now(config, backend, toplevel, now, force) {
        Ok(p) => Ok(p),
        Err(e) => Err(failed("cleanup dry-run failed", &e)),
    }
}

/// Preview a cleanup.
pub fn cmd_cleanup_plan<B: FileSystemBackend>(
    config: &Config,
    backend: &B,
    toplevel: &FsPath,
    force: bool,
) -> (r: Outcome<RetentionPlan>)
    ensures
        backend.reliable() ==> r is Ok,
        match r {
            Ok(p) => exists|now: Moment| #[trigger]
                now.of_clock() && may_plan(
                    backend.state(),
                    config@,
                    toplevel@,
                    now,
                    force,
                    p,
                    backend.reliable(),
                ),
            Err(m) => exists|e: ErrorView| m@ == #[trigger] failure("cleanup dry-run failed"@, e),
        },
{
    let now = utc_now();
    assert(now.of_clock());
    cmd_cleanup_plan_at(config, backend, toplevel, force, now)
}

/// What a `cleanup` command did.
#[derive(Debug)]
pub struct CleanupOutcome {
    pub notice: Option<String>,
    pub summary: CleanupSummary,
}

/// Whether a `cleanup` command at `now` that found the system in `a` and left
/// it in `b` gives `r`.
pub open spec fn cleanup_command(
    a: FsState,
    b: FsState,
    c: ConfigView,
    toplevel: PathView,
    force: bool,
    exact: bool,
    now: Moment,
    r: Outcome<CleanupOutcome>,
) -> bool {
    &&& r is Ok && exact ==> exists|s1: FsState|
        recovery(a, s1, c, toplevel, true, opt_view(r->Ok_0.notice)) && #[trigger] swept(
            s1,
            b,
            c,
            toplevel,
            force,
            now,
            r->Ok_0.summary,
        )
    &&& exact ==> exists|s1: FsState| #[trigger]
        recovers(a, s1, c, toplevel) && sweep_owed(s1, c, toplevel, force, now, r is Ok)
    &&& exists|s1: FsState| #[trigger]
        may_recover(a, s1, c, toplevel, exact) && (b == s1 || purged_and_thinned(
            s1,
            b,
            c,
            toplevel,
        ))
}

/// Recover, then clean up at `now`; with `force`, all DELETE markers are
/// purged.
pub fn cmd_cleanup_at<B: FileSystemBackend>(
    config: &Config,
    backend: &mut B,
    toplevel: &FsPath,
    force: bool,
    now: Moment,
) -> (r: Outcome<CleanupOutcome>)
    requires
        now.wf(),
    ensures
        final(backend).reliable() == old(backend).reliable(),
        cleanup_command(
            old(backend).state(),
            final(backend).state(),
            config@,
            toplevel@,
            force,
            old(backend).reliable(),
            now,
            r,
        ),
{
    let ghost exact = backend.reliable();
    let ghost a = backend.state();
    let notice = match recover_pending_orphans(config, backend, toplevel) {
        Ok(n) => n,
        Err(e) => {
            assert(may_recover(a, a, config@, toplevel@, exact));
            return Err(e);
        },
    };
    let ghost s1 = backend.state();
    proof {
        assert(recovery(a, s1, config@, toplevel@, exact, opt_view(notice)));
        assert(may_recover(a, s1, config@, toplevel@, exact));
        assert(exact ==> recovers(a, s1, config@, toplevel@));
    }
    let done = if force {
        apply_retention_force(config, backend, toplevel)
    } else {
        apply_retention_with_now(config, backend, toplevel, now)
    };
    assert(exact ==> sweep_owed(s1, config@, toplevel@, force, now, done is Ok));
    match done {
        Ok(summary) => {
            let out: Outcome<CleanupOutcome> = Ok(CleanupOutcome { notice, summary });
            assert(exact ==> swept(
                s1,
                backend.state(),
                config@,
                toplevel@,
                force,
                now,
                out->Ok_0.summary,
            ));
            out
        },
        Err(e) => Err(failed("cleanup failed", &e)),
    }
}

/// Recover, then clean up; with `force`, all DELETE markers are purged.
pub fn cmd_cleanup<B: FileSystemBackend>(
    config: &Config,
    backend: &mut B,
    toplevel: &FsPath,
    force: bool,
) -> (r: Outcome<CleanupOutcome>)
    ensures
        final(backend).reliable() == old(backend).reliable(),
        exists|now: Moment|
            now.of_clock() && #[trigger] cleanup_command(
                old(backend).state(),
                final(backend).state(),
                config@,
                toplevel@,
                force,
                old(backend).reliable(),
                now,
                r,
            ),
{
    let now = utc_now();
    cmd_cleanup_at(config, backend, toplevel, force, now)
}

/// The message where one snapshot is wanted and all of a strain are named.
pub open spec fn strain_named(strain: Seq<char>) -> Seq<char> {
    "'"@ + strain + "@' names every snapshot of a strain — give a single snapshot"@
}

/// Whether `r` is the one snapshot of `m`, those with the given ID, or the
/// message of the error where there is not exactly one.
pub open spec fn target_found(m: Seq<InfoView>, id: Seq<char>, r: Outcome<SnapshotInfo>) -> bool {
    if m.len() == 1 {
        r is Ok && r->Ok_0@ == m[0]
    } else {
        r is Err && r->Err_0@ == failure("failed to find snapshot"@, selection_error(m, id))
    }
}

/// Find the one snapshot that a reference names. A reference to all snapshots
/// of a strain names none.
pub fn find_target<B: FileSystemBackend>(
    config: &Config,
    backend: &B,
    toplevel: &FsPath,
    target: &SnapshotTarget,
) -> (r: Outcome<SnapshotInfo>)
    ensures
        match target@ {
            TargetView::AllInStrain { strain } => r is Err && r->Err_0@ == strain_named(strain),
            TargetView::Single { strain, id } => {
                &&& backend.reliable() ==> exists|all: Seq<InfoView>| #[trigger]
                    discovered(backend.state(), config@, toplevel@, all) && target_found(
                        matching(all, id, strain),
                        id,
                        r,
                    )
                &&& r is Ok ==> names(target@, r->Ok_0@)
            },
        },
{
    match target {
        SnapshotTarget::AllInStrain { strain } => Err(
            cat3(
                "'",
                strain.as_str(),
                "@' names every snapshot of a strain — give a single snapshot",
            ),
        ),
        SnapshotTarget::Single { strain, id } => {
            let want: Option<&str> = match strain {
                Some(w) => Some(w.as_str()),
                None => None,
            };
            assert(opt_str(want) == opt_view(*strain));
            match find_snapshot(config, backend, toplevel, id, want) {
                Ok(s) => Ok(s),
                Err(e) => Err(failed("failed to find snapshot", &e)),
            }
        },
    }
}

/// What a `delete` command did.
#[derive(Debug)]
pub struct DeleteOutcome {
    pub notice: Option<String>,
    pub strain: String,
    pub deleted: Vec<String>,
    pub skipped_protected: Vec<String>,
    /// Whether one snapshot was named, rather than all of a strain.
    pub single: bool,
}

/// Whether the deletion of the snapshots of a strain, but the protected ones,
/// turned `a` into `b`, as `o` says.
pub open spec fn strain_deleted(
    a: FsState,
    b: FsState,
    c: ConfigView,
    toplevel: PathView,
    strain: Seq<char>,
    o: DeleteOutcome,
) -> bool {
    exists|all: Seq<InfoView>, x: BulkDeleteOutcome|
        discovered(a, c, toplevel, all) && #[trigger] bulk_deleted(
            a,
            b,
            c,
            toplevel,
            strain,
            all,
            x,
        ) && x.deleted == o.deleted && x.skipped_protected == o.skipped_protected
}

/// Whether a deletion of what `t` names turned `a` into `b`, as `o` says.
pub open spec fn deletion(
    a: FsState,
    b: FsState,
    c: ConfigView,
    toplevel: PathView,
    t: TargetView,
    o: DeleteOutcome,
) -> bool {
    match t {
        TargetView::AllInStrain { strain } => {
            &&& !o.single
            &&& o.strain@ == strain
            &&& strain_deleted(a, b, c, toplevel, strain, o)
        },
        TargetView::Single { strain, id } => {
            &&& o.single
            &&& views(o.deleted@) == seq![id]
            &&& o.skipped_protected@.len() == 0
            &&& exists|all: Seq<InfoView>| #[trigger]
                discovered(a, c, toplevel, all) && matching(all, id, strain).len() == 1 && ({
                    let s = matching(all, id, strain)[0];
                    s.strain == o.strain@ && pruned(
                        a,
                        b,
                        info_paths(c, toplevel, s),
                        seq![info_sidecar(c, toplevel, s)],
                        true,
                    )
                })
        },
    }
}

/// Whether a `delete` command that found the snapshots `all` in `a`, after
/// recovery, and left the system in `b` succeeds where it has to, and fails
/// with the right message where the snapshot is not there or is protected.
pub open spec fn deletion_owed(
    a: FsState,
    b: FsState,
    c: ConfigView,
    toplevel: PathView,
    t: TargetView,
    all: Seq<InfoView>,
    r: Outcome<DeleteOutcome>,
) -> bool {
    match t {
        TargetView::AllInStrain { strain } => all_removable(
            a,
            c,
            toplevel,
            chosen(all, strain, false),
        ) ==> r is Ok,
        TargetView::Single { strain, id } => {
            let m = matching(all, id, strain);
            let s = m[0];
            if m.len() != 1 {
                r is Err && b == a && r->Err_0@ == failure(
                    "failed to find snapshot"@,
                    selection_error(m, id),
                )
            } else if is_protected(s.metadata) {
                r is Err && b == a && r->Err_0@ == failure(
                    "failed to delete snapshot"@,
                    ErrorView::ProtectedSnapshot { strain: s.strain, id: s.id },
                )
            } else {
                (forall|i: int|
                    0 <= i < s.subvolumes.len() ==> removable(
                        a,
                        #[trigger] info_paths(c, toplevel, s)[i],
                    )) ==> r is Ok
            }
        },
    }
}

/// Whether a deletion of what `t` names may take the snapshots `v`: they are
/// named, and none is protected.
pub open spec fn deletable(v: Seq<InfoView>, t: TargetView) -> bool {
    forall|i: int|
        0 <= i < v.len() ==> names(t, #[trigger] v[i]) && !is_protected(v[i].metadata)
}

/// Deletes the snapshots of a strain but the protected ones.
fn delete_strain<B: FileSystemBackend>(
    config: &Config,
    backend: &mut B,
    toplevel: &FsPath,
    strain: &String,
    notice: Option<String>,
) -> (r: Outcome<DeleteOutcome>)
    ensures
        final(backend).reliable() == old(backend).reliable(),
        r is Ok ==> r->Ok_0.notice == notice,
        r is Ok && old(backend).reliable() ==> deletion(
            old(backend).state(),
            final(backend).state(),
            config@,
            toplevel@,
            (TargetView::AllInStrain { strain: strain@ }),
            r->Ok_0,
        ),
        old(backend).reliable() ==> exists|all: Seq<InfoView>| #[trigger]
            discovered(old(backend).state(), config@, toplevel@, all) && deletion_owed(
                old(backend).state(),
                final(backend).state(),
                config@,
                toplevel@,
                (TargetView::AllInStrain { strain: strain@ }),
                all,
                r,
            ),
        exists|v: Seq<InfoView>|
            deletable(v, (TargetView::AllInStrain { strain: strain@ })) && #[trigger] deleted_all(
                old(backend).state(),
                final(backend).state(),
                config@,
                toplevel@,
                v,
                false,
            ),
{
    let ghost a = backend.state();
    let ghost exact = backend.reliable();
    let ghost t = TargetView::AllInStrain { strain: strain@ };
    let done = delete_all_strain(config, backend, toplevel, strain.as_str());
    let ghost b = backend.state();
    let ghost all = choose|all: Seq<InfoView>| #[trigger]
        discovered(a, config@, toplevel@, all) && (done is Ok ==> bulk_deleted(
            a,
            b,
            config@,
            toplevel@,
            strain@,
            all,
            done->Ok_0,
        )) && (all_removable(a, config@, toplevel@, chosen(all, strain@, false)) ==> done is Ok);
    proof {
        let v = choose|v: Seq<InfoView>|
            all_deletable(v, strain@) && #[trigger] deleted_all(a, b, config@, toplevel@, v, false);
        assert(deletable(v, t));
        assert(deleted_all(a, b, config@, toplevel@, v, false));
    }
    match done {
        Ok(o) => {
            let ghost x = o;
            let out: Outcome<DeleteOutcome> = Ok(
                DeleteOutcome {
                    notice,
                    strain: strain.clone(),
                    deleted: o.deleted,
                    skipped_protected: o.skipped_protected,
                    single: false,
                },
            );
            proof {
                if exact {
                    assert(bulk_deleted(a, b, config@, toplevel@, strain@, all, x));
                    assert(strain_deleted(a, b, config@, toplevel@, strain@, out->Ok_0));
                }
            }
            out
        },
        Err(e) => Err(failed("failed to delete strain snapshots", &e)),
    }
}

/// Deletes the one snapshot that a reference names.
fn delete_one<B: FileSystemBackend>(
    config: &Config,
    backend: &mut B,
    toplevel: &FsPath,
    target: &SnapshotTarget,
    id: &SnapshotId,
    notice: Option<String>,
) -> (r: Outcome<DeleteOutcome>)
    requires
        target@ is Single,
        target@->Single_id == id@,
    ensures
        final(backend).reliable() == old(backend).reliable(),
        r is Ok ==> r->Ok_0.notice == notice,
        r is Ok && old(backend).reliable() ==> deletion(
            old(backend).state(),
            final(backend).state(),
            config@,
            toplevel@,
            target@,
            r->Ok_0,
        ),
        old(backend).reliable() ==> exists|all: Seq<InfoView>| #[trigger]
            discovered(old(backend).state(), config@, toplevel@, all) && deletion_owed(
                old(backend).state(),
                final(backend).state(),
                config@,
                toplevel@,
                target@,
                all,
                r,
            ),
        exists|v: Seq<InfoView>|
            deletable(v, target@) && #[trigger] deleted_all(
                old(backend).state(),
                final(backend).state(),
                config@,
                toplevel@,
                v,
                false,
            ),
{
    let ghost a = backend.state();
    let ghost exact = backend.reliable();
    let found = find_target(config, backend, toplevel, target);
    let ghost all = choose|all: Seq<InfoView>| #[trigger]
        discovered(a, config@, toplevel@, all) && target_found(
            matching(all, id@, target@->Single_strain),
            id@,
            found,
        );
    proof {
        lemma_deleted_none(a, config@, toplevel@, false);
        assert(deletable(Seq::empty(), target@));
    }
    let snap = match found {
        Ok(s) => s,
        Err(e) => {
            return Err(e);
        },
    };
    let done = delete_snapshot(config, backend, toplevel, &snap);
    let ghost b = backend.state();
    proof {
        let one = seq![snap@];
        if !is_protected(snap@.metadata) {
            let none = Seq::<InfoView>::empty();
            if done is Ok && exact {
                lemma_pruned_weaken(
                    a,
                    b,
                    info_paths(config@, toplevel@, snap@),
                    seq![info_sidecar(config@, toplevel@, snap@)],
                );
            }
            lemma_deleted_push(a, a, b, config@, toplevel@, none, snap@, false);
            assert(none.push(snap@) =~= one);
            assert(deletable(one, target@));
        }
    }
    match done {
        Ok(_) => {
            let mut deleted: Vec<String> = Vec::new();
            deleted.push(id.as_str().to_owned());
            let out: Outcome<DeleteOutcome> = Ok(
                DeleteOutcome {
                    notice,
                    strain: snap.strain.clone(),
                    deleted,
                    skipped_protected: Vec::new(),
                    single: true,
                },
            );
            proof {
                assert(views(out->Ok_0.deleted@) =~= seq![id@]);
                if exact {
                    assert(deletion(a, b, config@, toplevel@, target@, out->Ok_0));
                    assert(deletion_owed(a, b, config@, toplevel@, target@, all, out));
                }
            }
            out
        },
        Err(e) => {
            let out: Outcome<DeleteOutcome> = Err(failed("failed to delete snapshot", &e));
            assert(exact ==> deletion_owed(a, b, config@, toplevel@, target@, all, out));
            out
        },
    }
}

/// Delete one snapshot, or all snapshots of a strain but the protected ones.
pub fn cmd_delete<B: FileSystemBackend>(
    config: &Config,
    backend: &mut B,
    toplevel: &FsPath,
    target: &SnapshotTarget,
) -> (r: Outcome<DeleteOutcome>)
    ensures
        final(backend).reliable() == old(backend).reliable(),
        r is Ok && old(backend).reliable() ==> exists|s1: FsState|
            recovery(
                old(backend).state(),
                s1,
                config@,
                toplevel@,
                true,
                opt_view(r->Ok_0.notice),
            ) && #[trigger] deletion(
                s1,
                final(backend).state(),
                config@,
                toplevel@,
                target@,
                r->Ok_0,
            ),
        old(backend).reliable() ==> exists|s1: FsState, all: Seq<InfoView>| #[trigger]
            recovers(old(backend).state(), s1, config@, toplevel@) && #[trigger] discovered(
                s1,
                config@,
                toplevel@,
                all,
            ) && deletion_owed(
                s1,
                final(backend).state(),
                config@,
                toplevel@,
                target@,
                all,
                r,
            ),
        exists|s1: FsState, v: Seq<InfoView>| #[trigger]
            may_recover(
                old(backend).state(),
                s1,
                config@,
                toplevel@,
                old(backend).reliable(),
            ) && deletable(v, target@) && #[trigger] deleted_all(
                s1,
                final(backend).state(),
                config@,
                toplevel@,
                v,
                false,
            ),
{
    let ghost exact = backend.reliable();
    let ghost a = backend.state();
    let notice = match recover_pending_orphans(config, backend, toplevel) {
        Ok(n) => n,
        Err(e) => {
            proof {
                assert(may_recover(a, a, config@, toplevel@, exact));
                lemma_deleted_none(a, config@, toplevel@, false);
            }
            return Err(e);
        },
    };
    let ghost s1 = backend.state();
    proof {
        assert(recovery(a, s1, config@, toplevel@, exact, opt_view(notice)));
        assert(may_recover(a, s1, config@, toplevel@, exact));
        assert(exact ==> recovers(a, s1, config@, toplevel@));
    }
    match target {
        SnapshotTarget::AllInStrain { strain } => delete_strain(
            config,
            backend,
            toplevel,
            strain,
            notice,
        ),
        SnapshotTarget::Single { strain: _, id } => delete_one(
            config,
            backend,
            toplevel,
            target,
            id,
            notice,
        ),
    }
}

/// The patch that the arguments of `edit` ask for. Notes that were not given
/// are left alone; a single empty one clears them.
pub open spec fn is_patch(
    p: MetadataPatch,
    message: Option<Seq<Seq<char>>>,
    protect: bool,
    unprotect: bool,
) -> bool {
    &&& p.protected == if protect {
        Some(true)
    } else if unprotect {
        Some(false)
    } else {
        None
    }
    &&& match message {
        None => p.message is None,
        Some(v) => p.message is Some && views(p.message->0@) == if v.len() == 1 && v[0].len()
            == 0 {
            Seq::empty()
        } else {
            v
        },
    }
}

/// Some notes that may have been given, with their texts.
pub open spec fn opt_views(m: Option<Vec<String>>) -> Option<Seq<Seq<char>>> {
    match m {
        Some(v) => Some(views(v@)),
        None => None,
    }
}

/// The patch that the arguments of `edit` ask for.
pub fn edit_patch(message: Option<Vec<String>>, protect: bool, unprotect: bool) -> (r: MetadataPatch)
    ensures
        is_patch(r, opt_views(message), protect, unprotect),
{
    let protected: Option<bool> = if protect {
        Some(true)
    } else if unprotect {
        Some(false)
    } else {
        None
    };
    let message: Option<Vec<String>> = match message {
        None => None,
        Some(v) => {
            if v.len() == 1 && v[0].as_str().is_empty() {
                let none: Vec<String> = Vec::new();
                assert(views(none@) =~= Seq::empty());
                assert(views(v@)[0] == v@[0]@);
                Some(none)
            } else {
                proof {
                    if v@.len() == 1 {
                        assert(views(v@)[0] == v@[0]@);
                    }
                }
                Some(v)
            }
        },
    };
    MetadataPatch { protected, message }
}

/// Whether `r` is what an `edit` command gives that found the system in `a`
/// and, in it, the snapshots `m` with the given ID.
pub open spec fn edit_owed(
    a: FsState,
    c: ConfigView,
    toplevel: PathView,
    m: Seq<InfoView>,
    id: Seq<char>,
    patch: MetadataPatch,
    r: Outcome<SnapshotInfo>,
) -> bool {
    let s = m[0];
    let path = info_sidecar(c, toplevel, s);
    if m.len() != 1 {
        r is Err && r->Err_0@ == failure("failed to find snapshot"@, selection_error(m, id))
    } else if !a.files.contains_key(path) {
        r is Err && r->Err_0@ == failure(
            "failed to edit snapshot"@,
            ErrorView::Other(
                "snapshot "@ + s.strain + "@"@ + s.id + " has no sidecar metadata to edit"@,
            ),
        )
    } else {
        &&& sidecar_in(a, path) is None ==> r is Err
        &&& sidecar_in(a, path) matches Some(m) ==> (r is Ok <==> all_quotes_fit(
            patch.applied(m).message,
        ))
        &&& r is Ok ==> r->Ok_0@ == (InfoView { metadata: r->Ok_0@.metadata, ..s })
    }
}

/// Edit the sidecar of one snapshot. It is an error to ask for nothing.
pub fn cmd_edit<B: FileSystemBackend>(
    config: &Config,
    backend: &mut B,
    toplevel: &FsPath,
    target: &SnapshotTarget,
    patch: &MetadataPatch,
) -> (r: Outcome<SnapshotInfo>)
    ensures
        final(backend).reliable() == old(backend).reliable(),
        patch.protected is None && patch.message is None ==> r is Err && r->Err_0@
            == "nothing to edit — pass --message, --protect or --unprotect"@,
        (patch.protected is Some || patch.message is Some) ==> (
        target@ matches TargetView::AllInStrain { strain } ==> r is Err && r->Err_0@
            == strain_named(strain)),
        r is Err ==> final(backend).state() == old(backend).state(),
        r is Ok ==> names(target@, r->Ok_0@) && edited(
            old(backend).state(),
            final(backend).state(),
            config@,
            toplevel@,
            r->Ok_0@,
            *patch,
        ) && r->Ok_0@.metadata == Some(
            patch.applied(
                sidecar_in(
                    old(backend).state(),
                    info_sidecar(config@, toplevel@, r->Ok_0@),
                )->0,
            ),
        ),
        (patch.protected is Some || patch.message is Some) && old(backend).reliable()
            && target@ is Single ==> exists|all: Seq<InfoView>| #[trigger]
            discovered(old(backend).state(), config@, toplevel@, all) && edit_owed(
                old(backend).state(),
                config@,
                toplevel@,
                matching(all, target@->Single_id, target@->Single_strain),
                target@->Single_id,
                *patch,
                r,
            ),
{
    if patch.is_empty() {
        return Err("nothing to edit — pass --message, --protect or --unprotect".to_owned());
    }
    let ghost a = backend.state();
    let found = find_target(config, backend, toplevel, target);
    let ghost all = choose|all: Seq<InfoView>| #[trigger]
        discovered(a, config@, toplevel@, all) && target_found(
            matching(all, target@->Single_id, target@->Single_strain),
            target@->Single_id,
            found,
        );
    let snap = match found {
        Ok(s) => s,
        Err(e) => {
            return Err(e);
        },
    };
    let out: Outcome<SnapshotInfo> = match update_snapshot_metadata(
        config,
        backend,
        toplevel,
        &snap,
        patch,
    ) {
        Ok(m) => Ok(
            SnapshotInfo {
                id: snap.id,
                strain: snap.strain,
                subvolumes: snap.subvolumes,
                efi_synced: snap.efi_synced,
                metadata: Some(m),
            },
        ),
        Err(e) => Err(failed("failed to edit snapshot", &e)),
    };
    assert(old(backend).reliable() && target@ is Single ==> edit_owed(
        a,
        config@,
        toplevel@,
        matching(all, target@->Single_id, target@->Single_strain),
        target@->Single_id,
        *patch,
        out,
    ));
    out
}

/// How a `restore` command goes on after the pre-flight checks.
#[derive(Debug, Clone, Copy, PartialEq, Eq, Structural)]
pub enum RestoreGate {
    /// A check reports an error, and it was not overridden.
    Blocked,
    /// The restore was not confirmed.
    Unconfirmed,
    Proceed,
}

/// How a `restore` command goes on: `force` overrides the checks, `yes`
/// confirms the restore, and neither does the other's part.
pub open spec fn gate(blocked: bool, yes: bool, force: bool) -> RestoreGate {
    if blocked && !force {
        RestoreGate::Blocked
    } else if !yes {
        RestoreGate::Unconfirmed
    } else {
        RestoreGate::Proceed
    }
}

/// How a `restore` command goes on.
pub fn restore_gate(findings: &Vec<Finding>, yes: bool, force: bool) -> (r: RestoreGate)
    ensures
        r == gate(has_error(finding_views(findings@)), yes, force),
{
    let blocked = blocking_summary(findings).is_some();
    if blocked && !force {
        RestoreGate::Blocked
    } else if !yes {
        RestoreGate::Unconfirmed
    } else {
        RestoreGate::Proceed
    }
}

/// What a `restore` command did.
#[derive(Debug)]
pub struct RestoreOutcome {
    pub notice: Option<String>,
    pub findings: Vec<Finding>,
    pub gate: RestoreGate,
    pub snapshot: SnapshotInfo,
    /// The live subvolumes that the restore replaces.
    pub subvolumes: Vec<String>,
    /// The mount point that the restore syncs, if any.
    pub efi_mount: Option<String>,
    /// The snapshot that was taken of the previous state.
    pub pre_restore: Option<SnapshotInfo>,
}

/// The findings of the pre-flight checks while the given machines run.
pub open spec fn machine_findings(machines: Seq<Seq<char>>) -> Seq<FindingView> {
    if machines.len() == 0 {
        Seq::empty()
    } else {
        seq![machines_finding(machines)]
    }
}

/// A snapshot that may have been taken, with its texts.
pub open spec fn pre_view(s: Option<SnapshotInfo>) -> Option<InfoView> {
    match s {
        Some(x) => Some(x@),
        None => None,
    }
}

/// Whether saving the current state before a restore of `s`, where that is
/// asked for, as the snapshot `id` taken at `created_at`, turned `a` into `m`
/// and gave the snapshot `pre`.
pub open spec fn saved(
    a: FsState,
    m: FsState,
    c: ConfigView,
    toplevel: PathView,
    s: InfoView,
    save: bool,
    id: Seq<char>,
    created_at: WallTime,
    pre: Option<InfoView>,
) -> bool {
    if save {
        pre is Some && snapshot_made(
            a,
            m,
            c,
            toplevel,
            s.strain,
            TriggerKind::Restore,
            seq![s.id],
            id,
            created_at,
            pre->0,
        )
    } else {
        pre is None && m == a
    }
}

/// Whether a restore of `s` that found the system in `a`, and saves it first
/// where that is asked for, succeeds where it has to: where the state can be
/// saved and the snapshot can be restored after that.
pub open spec fn restore_owed(
    a: FsState,
    c: ConfigView,
    toplevel: PathView,
    s: InfoView,
    save: bool,
    id: Seq<char>,
    created_at: WallTime,
    ts: Seq<char>,
    ok: bool,
) -> bool {
    (save ==> ready(a, c, toplevel, s.strain, id)) && (forall|m: FsState, pre: Option<InfoView>|
        #[trigger] saved(a, m, c, toplevel, s, save, id, created_at, pre) ==> restorable_at(
            m,
            c,
            toplevel,
            s,
            ts,
        )) ==> ok
}

/// Whether `b` is what a restore of `s` that fails may leave of `a`: the
/// saving of the current state loses nothing, and an interrupted restore loses
/// nothing of what it swaps.
pub open spec fn restore_failed(
    a: FsState,
    b: FsState,
    c: ConfigView,
    toplevel: PathView,
    s: InfoView,
    save: bool,
    id: Seq<char>,
    created_at: WallTime,
    ts: Seq<char>,
) -> bool {
    (save && grown(a, b)) || exists|m: FsState, pre: Option<InfoView>| #[trigger]
        saved(a, m, c, toplevel, s, save, id, created_at, pre) && interrupted_at(
            m,
            b,
            c,
            toplevel,
            s,
            ts,
        )
}

/// The parts that a snapshot should have and that are not there.
pub open spec fn missing_of(
    st: FsState,
    c: ConfigView,
    toplevel: PathView,
    s: InfoView,
) -> Seq<Seq<char>> {
    absent_parts(
        st,
        c,
        toplevel,
        s.strain,
        s.id,
        strain_parts(c, lookup(c.strain, s.strain)->0),
    )
}

/// Saves the current state before a restore, where that is asked for, as the
/// snapshot `id` taken at `created_at`.
pub(crate) fn save_current_state<B: FileSystemBackend>(
    config: &Config,
    backend: &mut B,
    toplevel: &FsPath,
    snap: &SnapshotInfo,
    save: bool,
    id: SnapshotId,
    created_at: WallTime,
) -> (r: crate::error::Result<Option<SnapshotInfo>>)
    requires
        created_at.wf(),
    ensures
        final(backend).reliable() == old(backend).reliable(),
        r is Ok ==> saved(
            old(backend).state(),
            final(backend).state(),
            config@,
            toplevel@,
            snap@,
            save,
            id@,
            created_at,
            pre_view(r->Ok_0),
        ),
        r is Err ==> save && grown(old(backend).state(), final(backend).state()),
        save && lookup(config@.strain, snap@.strain) is None ==> (r matches Err(e) && e@
            == ErrorView::Config("unknown strain: "@ + snap@.strain) && final(backend).state()
            == old(backend).state()),
        old(backend).reliable() && (save ==> ready(
            old(backend).state(),
            config@,
            toplevel@,
            snap@.strain,
            id@,
        )) ==> r is Ok,
{
    if !save {
        return Ok(None);
    }
    let mut note: Vec<String> = Vec::new();
    note.push(snap.id.as_str().to_owned());
    assert(views(note@) =~= seq![snap@.id]);
    match create_snapshot_at(
        config,
        backend,
        toplevel,
        snap.strain.as_str(),
        TriggerKind::Restore,
        note,
        id,
        created_at,
    ) {
        Ok(i) => Ok(Some(i)),
        Err(e) => Err(e),
    }
}

/// Whether `r` is what a `restore` command gives that found the system in `a`
/// after recovery, found in it the snapshots `m` with the given ID, and left
/// it in `b`.
pub open spec fn restore_command_owed(
    a: FsState,
    b: FsState,
    c: ConfigView,
    toplevel: PathView,
    m: Seq<InfoView>,
    id: Seq<char>,
    step: RestoreGate,
    save: bool,
    new_id: Seq<char>,
    created_at: WallTime,
    ts: Seq<char>,
    r: Outcome<RestoreOutcome>,
) -> bool {
    let s = m[0];
    if m.len() != 1 {
        r is Err && b == a && r->Err_0@ == failure(
            "failed to find snapshot"@,
            selection_error(m, id),
        )
    } else if lookup(c.strain, s.strain) is None {
        r is Err && b == a && r->Err_0@ == failure(
            "failed to find strain"@,
            ErrorView::Config("unknown strain: "@ + s.strain),
        )
    } else {
        &&& r is Ok ==> r->Ok_0.snapshot@ == s
        &&& if step == RestoreGate::Proceed {
            &&& restore_owed(a, c, toplevel, s, save, new_id, created_at, ts, r is Ok)
            &&& r is Err ==> restore_failed(a, b, c, toplevel, s, save, new_id, created_at, ts)
            &&& !save && missing_of(a, c, toplevel, s).len() > 0 ==> r is Err && b == a
                && r->Err_0@ == failure(
                "restore failed"@,
                ErrorView::IncompleteSnapshot {
                    id: s.id,
                    missing: missing_of(a, c, toplevel, s),
                },
            )
        } else {
            r is Ok && b == a
        }
    }
}

/// Whether a `restore` command that found the system in `a` after recovery,
/// took a snapshot of it in `m` and left it in `b` did what it says.
pub open spec fn restore_run(
    a: FsState,
    m: FsState,
    b: FsState,
    c: ConfigView,
    toplevel: PathView,
    machines: Seq<Seq<char>>,
    yes: bool,
    force: bool,
    save_current: bool,
    id: Seq<char>,
    created_at: WallTime,
    ts: Seq<char>,
    o: RestoreOutcome,
) -> bool {
    let s = o.snapshot@;
    &&& finding_views(o.findings@) == machine_findings(machines)
    &&& o.gate == gate(has_error(machine_findings(machines)), yes, force)
    &&& lookup(c.strain, s.strain) is Some
    &&& views(o.subvolumes@) == lookup(c.strain, s.strain)->0.subvolumes
    &&& opt_view(o.efi_mount) == if s.efi_synced && c.sys.efi_enabled {
        Some(c.sys.efi_mount)
    } else {
        None
    }
    &&& if o.gate == RestoreGate::Proceed {
        &&& saved(a, m, c, toplevel, s, save_current, id, created_at, pre_view(o.pre_restore))
        &&& restored_at(m, b, c, toplevel, s, ts)
    } else {
        o.pre_restore is None && m == a && b == a
    }
}

/// Whether a `restore` command that found the system in `a` and left it in `b`
/// gives `r`, where the state before it is saved as the snapshot `id` taken at
/// `created_at` and `ts` is the timestamp of the restore.
pub open spec fn restore_command(
    a: FsState,
    b: FsState,
    c: ConfigView,
    toplevel: PathView,
    t: TargetView,
    machines: Seq<Seq<char>>,
    yes: bool,
    force: bool,
    save_current: bool,
    exact: bool,
    id: Seq<char>,
    created_at: WallTime,
    ts: Seq<char>,
    r: Outcome<RestoreOutcome>,
) -> bool {
    &&& r is Ok ==> names(t, r->Ok_0.snapshot@) && exists|s1: FsState, m: FsState|
        recovery(a, s1, c, toplevel, exact, opt_view(r->Ok_0.notice)) && #[trigger] restore_run(
            s1,
            m,
            b,
            c,
            toplevel,
            machines,
            yes,
            force,
            save_current,
            id,
            created_at,
            ts,
            r->Ok_0,
        )
    &&& t matches TargetView::AllInStrain { strain } ==> r is Err && (exact ==> r->Err_0@
        == strain_named(strain) && recovers(a, b, c, toplevel))
    &&& r is Err ==> exists|s1: FsState| #[trigger]
        may_recover(a, s1, c, toplevel, exact) && (b == s1 || (gate(
            has_error(machine_findings(machines)),
            yes,
            force,
        ) == RestoreGate::Proceed && exists|s: InfoView| #[trigger]
            names(t, s) && restore_failed(
                s1,
                b,
                c,
                toplevel,
                s,
                save_current,
                id,
                created_at,
                ts,
            )))
    &&& exact && t is Single ==> exists|s1: FsState, all: Seq<InfoView>| #[trigger]
        recovers(a, s1, c, toplevel) && #[trigger] discovered(s1, c, toplevel, all)
            && restore_command_owed(
            s1,
            b,
            c,
            toplevel,
            matching(all, t->Single_id, t->Single_strain),
            t->Single_id,
            gate(has_error(machine_findings(machines)), yes, force),
            save_current,
            id,
            created_at,
            ts,
            r,
        )
}

/// Restore a snapshot, once the checks allow it and it is confirmed. With
/// `save_current`, the state before it is saved first, and if that fails
/// nothing is restored. Retention is not applied, so that the snapshot
/// restored stays. `machines` are those registered with systemd-machined.
///
/// The state before the restore is saved as the snapshot `id` taken at
/// `created_at`, and `ts` is the timestamp of the DELETE markers.
pub fn cmd_restore_at<B: FileSystemBackend>(
    config: &Config,
    backend: &mut B,
    toplevel: &FsPath,
    target: &SnapshotTarget,
    machines: &Vec<String>,
    yes: bool,
    force: bool,
    save_current: bool,
    id: SnapshotId,
    created_at: WallTime,
    ts: &SnapshotId,
) -> (r: Outcome<RestoreOutcome>)
    requires
        created_at.wf(),
    ensures
        final(backend).reliable() == old(backend).reliable(),
        restore_command(
            old(backend).state(),
            final(backend).state(),
            config@,
            toplevel@,
            target@,
            views(machines@),
            yes,
            force,
            save_current,
            old(backend).reliable(),
            id@,
            created_at,
            ts@,
            r,
        ),
{
    let ghost the_id = id@;
    let notice = match recover_pending_orphans(config, backend, toplevel) {
        Ok(n) => n,
        Err(e) => {
            assert(may_recover(
                old(backend).state(),
                backend.state(),
                config@,
                toplevel@,
                backend.reliable(),
            ));
            return Err(e);
        },
    };
    let ghost exact = backend.reliable();
    let ghost a = backend.state();
    assert(recovery(
        old(backend).state(),
        a,
        config@,
        toplevel@,
        exact,
        opt_view(notice),
    ));
    assert(may_recover(old(backend).state(), a, config@, toplevel@, exact));
    assert(exact ==> recovers(old(backend).state(), a, config@, toplevel@));
    let found = find_target(config, backend, toplevel, target);
    let ghost all = choose|all: Seq<InfoView>| #[trigger]
        discovered(a, config@, toplevel@, all) && target_found(
            matching(all, target@->Single_id, target@->Single_strain),
            target@->Single_id,
            found,
        );
    let snap = match found {
        Ok(s) => s,
        Err(e) => {
            return Err(e);
        },
    };
    let findings = preflight_restore(machines);
    assert(finding_views(findings@) =~= machine_findings(views(machines@)));
    let step = restore_gate(&findings, yes, force);
    let (subvolumes, efi_mount) = match config.strain(snap.strain.as_str()) {
        Ok(s) => {
            let efi: Option<String> = if snap.efi_synced && config.sys.efi.enabled {
                Some(config.sys.efi.mount_point.clone())
            } else {
                None
            };
            (clone_texts(&s.subvolumes), efi)
        },
        Err(e) => {
            return Err(failed("failed to find strain", &e));
        },
    };
    if step != RestoreGate::Proceed {
        let out: Outcome<RestoreOutcome> = Ok(
            RestoreOutcome {
                notice,
                findings,
                gate: step,
                snapshot: snap,
                subvolumes,
                efi_mount,
                pre_restore: None,
            },
        );
        assert(restore_run(
            a,
            a,
            backend.state(),
            config@,
            toplevel@,
            views(machines@),
            yes,
            force,
            save_current,
            the_id,
            created_at,
            ts@,
            out->Ok_0,
        ));
        return out;
    }
    let pre_restore = match save_current_state(
        config,
        backend,
        toplevel,
        &snap,
        save_current,
        id,
        created_at,
    ) {
        Ok(p) => p,
        Err(e) => {
            assert(names(target@, snap@));
            return Err(failed("failed to create pre-restore snapshot; restore aborted", &e));
        },
    };
    let ghost m = backend.state();
    assert(saved(
        a,
        m,
        config@,
        toplevel@,
        snap@,
        save_current,
        the_id,
        created_at,
        pre_view(pre_restore),
    ));
    match restore_snapshot_at(config, backend, toplevel, &snap, ts) {
        Ok(_) => {},
        Err(e) => {
            assert(names(target@, snap@));
            return Err(failed("restore failed", &e));
        },
    }
    let out: Outcome<RestoreOutcome> = Ok(
        RestoreOutcome {
            notice,
            findings,
            gate: step,
            snapshot: snap,
            subvolumes,
            efi_mount,
            pre_restore,
        },
    );
    proof {
        assert(restored_at(m, backend.state(), config@, toplevel@, out->Ok_0.snapshot@, ts@));
        assert(restore_run(
            a,
            m,
            backend.state(),
            config@,
            toplevel@,
            views(machines@),
            yes,
            force,
            save_current,
            the_id,
            created_at,
            ts@,
            out->Ok_0,
        ));
    }
    out
}

/// Restore a snapshot, once the checks allow it and it is confirmed.
///
/// The ID and the times are the clock's; what is done with them is what
/// [`cmd_restore_at`] does.
pub fn cmd_restore<B: FileSystemBackend>(
    config: &Config,
    backend: &mut B,
    toplevel: &FsPath,
    target: &SnapshotTarget,
    machines: &Vec<String>,
    yes: bool,
    force: bool,
    save_current: bool,
) -> (r: Outcome<RestoreOutcome>)
    ensures
        final(backend).reliable() == old(backend).reliable(),
        exists|id: Seq<char>, created_at: WallTime, ts: Seq<char>|
            is_clock_id(id) && created_at.wf() && is_clock_id(ts) && #[trigger] restore_command(
                old(backend).state(),
                final(backend).state(),
                config@,
                toplevel@,
                target@,
                views(machines@),
                yes,
                force,
                save_current,
                old(backend).reliable(),
                id,
                created_at,
                ts,
                r,
            ),
{
    let id = SnapshotId::now();
    let created_at = local_now();
    let ts = SnapshotId::now();
    cmd_restore_at(
        config,
        backend,
        toplevel,
        target,
        machines,
        yes,
        force,
        save_current,
        id,
        created_at,
        &ts,
    )
}

/// The finding that a scan failed.
pub open spec fn scan_failure(check: Seq<char>, e: ErrorView) -> FindingView {
    FindingView {
        severity: Severity::Error,
        check,
        message: "scan failed: "@ + e.text(),
        hint: None,
    }
}

/// Whether the finding is that the scan `check` failed.
pub open spec fn is_scan_failure(check: Seq<char>, v: Seq<FindingView>) -> bool {
    exists|e: ErrorView| v == seq![#[trigger] scan_failure(check, e)]
}

/// Whether the findings are those on stray snapshots, all of them where
/// `exact`.
pub open spec fn reports_snapshots(
    st: FsState,
    c: ConfigView,
    dir: PathView,
    v: Seq<FindingView>,
    exact: bool,
) -> bool {
    &&& check::sorted_by_message(v)
    &&& exists|names: Seq<Seq<char>>| #[trigger]
        check::findings_for(c, v, names) && names.no_duplicates() && (forall|i: int|
            0 <= i < names.len() ==> check::is_orphaned_entry(st, c, dir, #[trigger] names[i])) && (
        exact && st.subvols.contains_key(dir) ==> forall|n: Seq<char>| #[trigger]
            check::is_orphaned_entry(st, c, dir, n) ==> names.contains(n))
    &&& exact && !st.subvols.contains_key(dir) ==> v.len() == 0
}

/// Whether the findings are those on stray sidecars, all of them where
/// `exact`.
pub open spec fn reports_sidecars(
    st: FsState,
    dir: PathView,
    v: Seq<FindingView>,
    exact: bool,
) -> bool {
    exists|names: Seq<Seq<char>>|
        v == #[trigger] check::sidecar_findings(names) && strictly_ascending(names) && (forall|
            i: int,
        |
            0 <= i < names.len() ==> is_orphan(st, dir, #[trigger] names[i])) && (exact
            && st.subvols.contains_key(dir) ==> forall|n: Seq<char>| #[trigger]
            is_orphan(st, dir, n) ==> names.contains(n)) && (exact && !st.subvols.contains_key(dir)
            ==> names.len() == 0)
}

/// Whether the findings are those on nested subvolumes. Where not `exact`, what
/// is nested in a subvolume may not be found.
pub open spec fn reports_nested(
    st: FsState,
    c: ConfigView,
    toplevel: PathView,
    v: Seq<FindingView>,
    exact: bool,
) -> bool {
    exists|nested: Seq<Seq<PathView>>|
        nested.len() == check::all_subvols(c).len() && v == #[trigger] check::nested_findings(
            toplevel,
            check::all_subvols(c),
            nested,
        ) && forall|k: int|
            0 <= k < nested.len() ==> is_nesting(
                st,
                path_join(toplevel, check::all_subvols(c)[k]),
                #[trigger] nested[k],
            ) || (!exact && nested[k].len() == 0)
}

/// Whether the findings are those of the three scans. Where not `exact`, each
/// of the first two may have failed instead.
pub open spec fn scans(
    st: FsState,
    c: ConfigView,
    toplevel: PathView,
    a: Seq<FindingView>,
    b: Seq<FindingView>,
    n: Seq<FindingView>,
    exact: bool,
) -> bool {
    &&& reports_snapshots(st, c, snap_dir_of(c, toplevel), a, exact) || (!exact && is_scan_failure(
        "orphaned-snapshot"@,
        a,
    ))
    &&& reports_sidecars(st, snap_dir_of(c, toplevel), b, exact) || (!exact && is_scan_failure(
        "orphaned-sidecar"@,
        b,
    ))
    &&& reports_nested(st, c, toplevel, n, exact)
}

/// Whether a `check` command fails: some finding is an error.
pub fn check_failed(findings: &Vec<Finding>) -> (r: bool)
    ensures
        r == has_error(finding_views(findings@)),
{
    blocking_summary(findings).is_some()
}

/// The findings of the checks on a system whose configuration loaded: stray
/// snapshots, stray sidecars, nested subvolumes. A scan that failed is a
/// finding too.
pub fn scan_system<B: FileSystemBackend>(config: &Config, backend: &B, toplevel: &FsPath) -> (r: Vec<
    Finding,
>)
    ensures
        exists|a: Seq<FindingView>, b: Seq<FindingView>, c: Seq<FindingView>| #[trigger]
            scans(backend.state(), config@, toplevel@, a, b, c, backend.reliable())
                && finding_views(r@) == a + b + c,
{
    let mut out: Vec<Finding> = Vec::new();
    let ghost mut a: Seq<FindingView> = Seq::empty();
    let ghost mut b: Seq<FindingView> = Seq::empty();
    match check::find_orphaned_snapshots(config, backend, toplevel) {
        Ok(mut f) => {
            proof {
                a = finding_views(f@);
            }
            out.append(&mut f);
            assert(finding_views(out@) =~= a);
        },
        Err(e) => {
            out.push(
                Finding::error(
                    "orphaned-snapshot",
                    cat2("scan failed: ", e.message().as_str()),
                ),
            );
            proof {
                a = finding_views(out@);
                assert(a =~= seq![scan_failure("orphaned-snapshot"@, e@)]);
            }
        },
    }
    let ghost o1 = out@;
    match check::find_orphaned_sidecars(config, backend, toplevel) {
        Ok(mut f) => {
            proof {
                b = finding_views(f@);
            }
            out.append(&mut f);
            assert(finding_views(out@) =~= finding_views(o1) + b);
        },
        Err(e) => {
            out.push(
                Finding::error("orphaned-sidecar", cat2("scan failed: ", e.message().as_str())),
            );
            proof {
                b = seq![scan_failure("orphaned-sidecar"@, e@)];
                assert(finding_views(out@) =~= finding_views(o1) + b);
            }
        },
    }
    let ghost o2 = out@;
    let mut nested = check::find_nested_subvolumes(config, backend, toplevel);
    let ghost c = finding_views(nested@);
    out.append(&mut nested);
    proof {
        assert(finding_views(out@) =~= finding_views(o2) + c);
        assert(scans(backend.state(), config@, toplevel@, a, b, c, backend.reliable()));
    }
    out
}

} // verus!
