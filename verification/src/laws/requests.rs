//! What a request is answered: when it is refused, what a refusal leaves behind,
//! and what an answer stands for.

use vstd::prelude::*;
use vstd::string::*;

use crate::assoc::lookup;
use crate::backend::FsState;
use crate::check::{config_invalid, config_missing, is_orphaned_entry, FindingView, Severity};
use crate::cleanup::recovery::recovered;
use crate::cleanup::tombstones::{lists_tombstones, purged_wanted, wanted_names};
use crate::cli::commands::{
    deletion_owed, edit_owed, may_recover, missing_of, recovers, recovery, restore_command,
    restore_command_owed, restore_run, scans, snapshot_command, snapshot_made, snapshot_run,
    target_found, DeleteOutcome, Outcome, RestoreGate, RestoreOutcome, SnapshotOutcome,
};
use crate::clock::{Moment, WallTime};
use crate::config::{config_fault, decode_config, ConfigView, DEFAULT_CONFIG_PATH};
use crate::daemon::errors::{wire_name, DaemonErrorView, DaemonResult};
use crate::daemon::marshal::{Dict, WireView};
use crate::daemon::service::{answers, creation, reloaded, restore_request};
use crate::daemon::state::{unavailable, DaemonState};
use crate::daemon::watcher::noted;
use crate::document::toml_document;
use crate::error::ErrorView;
use crate::laws::bus::law_snapshot_on_the_bus;
use crate::laws::commands::{law_machines_block, law_snapshot_command};
use crate::metadata::{is_orphan, TriggerKind};
use crate::path::{path_join, path_of, PathView};
use crate::restore::restored_at;
use crate::snapshot::discovery::{discovered, matching, selects};
use crate::snapshot::id::id_ok;
use crate::snapshot::info::{InfoView, SnapshotInfo};
use crate::snapshot::operations::MetadataPatch;
use crate::snapshot::target::TargetView;
use crate::text::{opt_view, views};

verus! {

/// A reference is resolved exactly if one snapshot fits it, and then to that
/// one.
pub proof fn law_resolved_references(
    all: Seq<InfoView>,
    id: Seq<char>,
    strain: Option<Seq<char>>,
    r: crate::error::Result<SnapshotInfo>,
    o: Outcome<SnapshotInfo>,
)
    requires
        selects(all, id, strain, r),
        target_found(matching(all, id, strain), id, o),
    ensures
        r is Ok <==> matching(all, id, strain).len() == 1,
        o is Ok <==> matching(all, id, strain).len() == 1,
        r is Ok ==> all.contains(r->Ok_0@) && r->Ok_0@.id == id && (strain matches Some(x)
            ==> r->Ok_0@.strain == x) && o->Ok_0@ == r->Ok_0@,
        matching(all, id, strain).len() == 0 ==> r->Err_0@ == ErrorView::SnapshotNotFound(id),
{
    let m = matching(all, id, strain);
    if m.len() == 1 {
        assert(m.contains(m[0]));
        crate::laws::listing::law_named_snapshots(all, id, strain, m[0]);
    }
}

/// A snapshot command is refused where the strain is not configured, and then
/// takes nothing. What it reports where it succeeds is the snapshot that was
/// asked for. A failure loses no subvolume, unless retention was under way.
pub proof fn law_snapshot_request(
    a: FsState,
    b: FsState,
    c: ConfigView,
    toplevel: PathView,
    strain: Seq<char>,
    trigger: TriggerKind,
    message: Seq<Seq<char>>,
    protect: bool,
    id: Seq<char>,
    created_at: WallTime,
    now: Moment,
    r: Outcome<SnapshotOutcome>,
)
    requires
        snapshot_command(
            a,
            b,
            c,
            toplevel,
            strain,
            trigger,
            message,
            protect,
            true,
            id,
            created_at,
            now,
            r,
        ),
    ensures
        lookup(c.strain, strain) is None ==> r is Err && exists|n: nat| #[trigger]
            recovered(a, b, c, toplevel, n, true),
        r matches Ok(o) ==> o.created@.strain == strain && o.created@.id == id && (protect ==> (
        o.created@.metadata matches Some(m) && m.protected)),
        r is Err && !c.sys.auto_apply_retention ==> exists|s: FsState|
            #![trigger may_recover(a, s, c, toplevel, true)]
            (s == a || exists|n: nat| #[trigger] recovered(a, s, c, toplevel, n, true)) && forall|
                p: PathView,
            | #[trigger]
                s.subvols.contains_key(p) ==> b.subvols.contains_key(p) && b.subvols[p]
                    == s.subvols[p],
{
    if lookup(c.strain, strain) is None {
        assert(recovers(a, b, c, toplevel));
        let notice = choose|notice: Option<Seq<char>>| #[trigger]
            recovery(a, b, c, toplevel, true, notice);
        assert(recovery(a, b, c, toplevel, true, notice));
    }
    if r is Ok {
        let states = choose|states: Seq<FsState>|
            states[0] == a && states[4] == b && #[trigger] snapshot_run(
                states,
                c,
                toplevel,
                strain,
                trigger,
                message,
                protect,
                true,
                id,
                created_at,
                now,
                r->Ok_0,
            );
        crate::laws::commands::law_snapshot_steps(
            states,
            c,
            toplevel,
            strain,
            trigger,
            message,
            protect,
            id,
            created_at,
            now,
            r->Ok_0,
        );
    }
    if r is Err && !c.sys.auto_apply_retention {
        let s = choose|s: FsState| #[trigger]
            may_recover(a, s, c, toplevel, true) && crate::cli::commands::snapshot_failed(
                s,
                b,
                c,
                toplevel,
                strain,
                trigger,
                message,
                protect,
                id,
                created_at,
            );
        assert(may_recover(a, s, c, toplevel, true));
        if !crate::backend::effects::grown(s, b) {
            let (m, made) = choose|m: FsState, made: InfoView| #[trigger]
                snapshot_made(s, m, c, toplevel, strain, trigger, message, id, created_at, made)
                    && b == m;
            law_snapshot_command(
                s,
                b,
                c,
                toplevel,
                strain,
                trigger,
                message,
                id,
                created_at,
                made,
            );
        }
    }
}

/// A restore names one snapshot: a whole strain is refused. Where it goes
/// ahead, the state is saved first if that was asked for. Where a machine is
/// running and the restore is not forced, or it is not confirmed, nothing
/// changes but what recovery put back.
pub proof fn law_restore_request(
    a: FsState,
    b: FsState,
    c: ConfigView,
    toplevel: PathView,
    t: TargetView,
    machines: Seq<Seq<char>>,
    yes: bool,
    force: bool,
    save: bool,
    id: Seq<char>,
    created_at: WallTime,
    ts: Seq<char>,
    r: Outcome<RestoreOutcome>,
)
    requires
        restore_command(
            a,
            b,
            c,
            toplevel,
            t,
            machines,
            yes,
            force,
            save,
            true,
            id,
            created_at,
            ts,
            r,
        ),
    ensures
        t is AllInStrain ==> r is Err,
        r matches Ok(o) ==> {
            &&& t matches TargetView::Single { strain, id } && o.snapshot@.id == id && (
            strain matches Some(x) ==> o.snapshot@.strain == x)
            &&& lookup(c.strain, o.snapshot@.strain) is Some
            &&& views(o.subvolumes@) == lookup(c.strain, o.snapshot@.strain)->0.subvolumes
            &&& opt_view(o.efi_mount) is Some <==> o.snapshot@.efi_synced && c.sys.efi_enabled
            &&& opt_view(o.efi_mount) matches Some(m) ==> m == c.sys.efi_mount
            &&& o.gate == RestoreGate::Proceed <==> yes && (machines.len() == 0 || force)
            &&& o.gate != RestoreGate::Proceed ==> o.pre_restore is None && exists|n: nat|
                #[trigger] recovered(a, b, c, toplevel, n, true)
            &&& o.gate == RestoreGate::Proceed ==> (save <==> o.pre_restore is Some) && exists|
                m: FsState,
            | #[trigger]
                restored_at(m, b, c, toplevel, o.snapshot@, ts)
        },
{
    law_machines_block(machines);
    if r is Ok {
        let o = r->Ok_0;
        let (s1, m) = choose|s1: FsState, m: FsState|
            recovery(a, s1, c, toplevel, true, opt_view(o.notice)) && #[trigger] restore_run(
                s1,
                m,
                b,
                c,
                toplevel,
                machines,
                yes,
                force,
                save,
                id,
                created_at,
                ts,
                o,
            );
        assert(restore_run(
            s1,
            m,
            b,
            c,
            toplevel,
            machines,
            yes,
            force,
            save,
            id,
            created_at,
            ts,
            o,
        ));
        if o.gate == RestoreGate::Proceed {
            assert(restored_at(m, b, c, toplevel, o.snapshot@, ts));
        } else {
            let n = choose|n: nat| #[trigger] recovered(a, s1, c, toplevel, n, true);
            assert(recovered(a, b, c, toplevel, n, true));
        }
    }
}

/// A restore is refused, and changes nothing, where no snapshot or more than
/// one fits, where the strain is not configured, and, if the state is not saved
/// first, where a part of the snapshot is missing. Where it may not go ahead it
/// is answered and changes nothing.
pub proof fn law_refused_restores(
    a: FsState,
    b: FsState,
    c: ConfigView,
    toplevel: PathView,
    m: Seq<InfoView>,
    id: Seq<char>,
    step: RestoreGate,
    save: bool,
    new_id: Seq<char>,
    created_at: WallTime,
    ts: Seq<char>,
    r: Outcome<RestoreOutcome>,
)
    requires
        restore_command_owed(a, b, c, toplevel, m, id, step, save, new_id, created_at, ts, r),
    ensures
        m.len() != 1 ==> r is Err && b == a,
        m.len() == 0 ==> r->Err_0@ == "failed to find snapshot"@ + ": "@
            + ErrorView::SnapshotNotFound(id).text(),
        m.len() == 1 && lookup(c.strain, m[0].strain) is None ==> r is Err && b == a,
        m.len() == 1 && lookup(c.strain, m[0].strain) is Some && step != RestoreGate::Proceed
            ==> r is Ok && b == a && r->Ok_0.snapshot@ == m[0],
        m.len() == 1 && lookup(c.strain, m[0].strain) is Some && step == RestoreGate::Proceed
            && !save && missing_of(a, c, toplevel, m[0]).len() > 0 ==> r is Err && b == a,
{
}

/// A deletion is refused, and changes nothing, where no snapshot or more than
/// one fits, and where the one that fits is protected.
pub proof fn law_refused_deletions(
    a: FsState,
    b: FsState,
    c: ConfigView,
    toplevel: PathView,
    strain: Option<Seq<char>>,
    id: Seq<char>,
    all: Seq<InfoView>,
    r: Outcome<DeleteOutcome>,
)
    requires
        deletion_owed(a, b, c, toplevel, TargetView::Single { strain, id }, all, r),
    ensures
        matching(all, id, strain).len() != 1 ==> r is Err && b == a,
        matching(all, id, strain).len() == 1 && (matching(all, id, strain)[0].metadata matches Some(
            m,
        ) && m.protected) ==> r is Err && b == a,
{
}

/// An edit is refused where no snapshot or more than one fits, and where the one
/// that fits has no readable record.
pub proof fn law_refused_edits(
    a: FsState,
    c: ConfigView,
    toplevel: PathView,
    m: Seq<InfoView>,
    id: Seq<char>,
    patch: MetadataPatch,
    r: Outcome<SnapshotInfo>,
)
    requires
        edit_owed(a, c, toplevel, m, id, patch, r),
    ensures
        m.len() != 1 ==> r is Err,
        m.len() == 1 && !a.files.contains_key(
            path_join(
                path_join(toplevel, c.sys.snapshot_subvol),
                m[0].strain + "-"@ + m[0].id + ".meta.toml"@,
            ),
        ) ==> r is Err,
        r is Ok ==> m.len() == 1 && r->Ok_0@.id == m[0].id && r->Ok_0@.strain == m[0].strain
            && r->Ok_0@.subvolumes == m[0].subvolumes,
{
}

/// A snapshot asked for over the bus is refused where the strain is not
/// configured, and then nothing changes. What is told of it where it succeeds
/// names the strain and the new ID. A failure loses no subvolume.
pub proof fn law_snapshot_over_the_bus(
    a: FsState,
    b: FsState,
    c: ConfigView,
    toplevel: PathView,
    strain: Seq<char>,
    message: Seq<Seq<char>>,
    id: Seq<char>,
    created_at: WallTime,
    r: DaemonResult<Dict>,
)
    requires
        creation(a, b, c, toplevel, strain, message, true, id, created_at, r),
    ensures
        lookup(c.strain, strain) is None ==> (r matches Err(e) && e@ is InvalidArgument) && b == a,
        r matches Ok(d) ==> lookup(d@, "id"@) == Some(WireView::Text(id)) && lookup(d@, "strain"@)
            == Some(WireView::Text(strain)) && exists|s: InfoView| #[trigger]
            snapshot_made(
                a,
                b,
                c,
                toplevel,
                strain,
                TriggerKind::Manual,
                message,
                id,
                created_at,
                s,
            ),
        r is Err ==> forall|p: PathView| #[trigger]
            a.subvols.contains_key(p) ==> b.subvols.contains_key(p) && b.subvols[p] == a.subvols[p],
{
    if r is Ok {
        let s = choose|s: InfoView| #[trigger]
            snapshot_made(
                a,
                b,
                c,
                toplevel,
                strain,
                TriggerKind::Manual,
                message,
                id,
                created_at,
                s,
            ) && crate::daemon::service::is_snapshot_dict(b, c, toplevel, s, r->Ok_0);
        law_snapshot_command(
            a,
            b,
            c,
            toplevel,
            strain,
            TriggerKind::Manual,
            message,
            id,
            created_at,
            s,
        );
        let live = choose|live: Option<(Seq<char>, Seq<char>)>|
            crate::snapshot::discovery::live_answer(b, c, toplevel, live) && r->Ok_0@
                == #[trigger] crate::daemon::marshal::snapshot_dict(s, live);
        law_snapshot_on_the_bus(s, live);
    }
}

/// Asked for one snapshot, the daemon tells of the one that fits, and says that
/// it is not there where none does.
pub proof fn law_one_snapshot_over_the_bus(
    st: FsState,
    c: ConfigView,
    toplevel: PathView,
    all: Seq<InfoView>,
    strain: Seq<char>,
    id: Seq<char>,
    r: DaemonResult<Dict>,
)
    requires
        answers(st, c, toplevel, all, strain, id, r),
    ensures
        r is Ok <==> matching(all, id, Some(strain)).len() == 1,
        r matches Ok(d) ==> lookup(d@, "id"@) == Some(WireView::Text(id)) && lookup(d@, "strain"@)
            == Some(WireView::Text(strain)),
        matching(all, id, Some(strain)).len() == 0 ==> (r matches Err(e) && e@ is NotFound),
{
    let m = matching(all, id, Some(strain));
    if m.len() == 1 {
        assert(m.contains(m[0]));
        crate::laws::listing::law_named_snapshots(all, id, Some(strain), m[0]);
        let live = choose|live: Option<(Seq<char>, Seq<char>)>|
            crate::snapshot::discovery::live_answer(st, c, toplevel, live) && r->Ok_0@
                == #[trigger] crate::daemon::marshal::snapshot_dict(m[0], live);
        law_snapshot_on_the_bus(m[0], live);
    }
}

/// A restore over the bus is refused where the ID is none, and changes nothing;
/// nor does a dry run change anything.
pub proof fn law_restore_asked_over_the_bus(
    a: FsState,
    b: FsState,
    c: ConfigView,
    toplevel: PathView,
    strain: Seq<char>,
    id: Seq<char>,
    save: bool,
    dry: bool,
    machines: Seq<Seq<char>>,
    new_id: Seq<char>,
    created_at: WallTime,
    ts: Seq<char>,
    r: DaemonResult<Dict>,
)
    requires
        restore_request(
            a,
            b,
            c,
            toplevel,
            strain,
            id,
            save,
            dry,
            machines,
            true,
            new_id,
            created_at,
            ts,
            r,
        ),
    ensures
        !id_ok(id) ==> (r matches Err(e) && e@ is InvalidArgument) && b == a,
        id_ok(id) && dry ==> b == a,
        id_ok(id) && !dry && machines.len() > 0 ==> r is Err && b == a,
        r is Ok ==> exists|all: Seq<InfoView>, s: InfoView| #[trigger]
            discovered(a, c, toplevel, all) && #[trigger] all.contains(s) && s.id == id && s.strain
                == strain,
{
    if id_ok(id) {
        let all = choose|all: Seq<InfoView>| #[trigger]
            discovered(a, c, toplevel, all) && crate::daemon::service::restore_reply(
                a,
                b,
                c,
                toplevel,
                matching(all, id, Some(strain)),
                strain,
                id,
                save,
                dry,
                machines,
                new_id,
                created_at,
                ts,
                r,
            );
        let m = matching(all, id, Some(strain));
        crate::laws::bus::law_restore_over_the_bus(
            a,
            b,
            c,
            toplevel,
            m,
            strain,
            id,
            save,
            dry,
            machines,
            new_id,
            created_at,
            ts,
            r,
        );
        if m.len() == 1 {
            assert(m.contains(m[0]));
            crate::laws::listing::law_named_snapshots(all, id, Some(strain), m[0]);
            assert(all.contains(m[0]));
        }
    }
}

/// A reload takes the configuration as it is in the file now, and is refused
/// exactly if that is no valid configuration.
pub proof fn law_reload(st: FsState, s: DaemonState, r: DaemonResult<()>)
    requires
        reloaded(st, s, r),
    ensures
        ({
            let text = st.files[path_of("/etc/revenant/config.toml"@)];
            &&& r is Ok <==> (toml_document(text) matches Ok(doc) && decode_config(
                doc,
            ) matches Some(v) && config_fault(v) is None)
            &&& r is Ok ==> (s.config matches Some(c) && Some(c@) == decode_config(
                toml_document(text)->Ok_0,
            ))
            &&& r matches Err(e) ==> e@ is Internal
        }),
{
    assert(DEFAULT_CONFIG_PATH@ == "/etc/revenant/config.toml"@);
}

/// Every error has a name of its own on the bus, and it is the error's.
pub proof fn law_error_names(e: DaemonErrorView)
    ensures
        e is NotAuthorized ==> wire_name(e) == "org.revenant.Error.NotAuthorized"@,
        e is NotFound ==> wire_name(e) == "org.revenant.Error.NotFound"@,
        e is InvalidArgument ==> wire_name(e) == "org.revenant.Error.InvalidArgument"@,
        e is PreflightBlocked ==> wire_name(e) == "org.revenant.Error.PreflightBlocked"@,
        e is Conflict ==> wire_name(e) == "org.revenant.Error.Conflict"@,
        e is BackendUnavailable ==> wire_name(e) == "org.revenant.Error.BackendUnavailable"@,
        e is Internal ==> wire_name(e) == "org.revenant.Error.Internal"@,
{
}

/// Where the daemon cannot serve it says so, and not that it failed.
pub proof fn law_degraded_is_unavailable(s: DaemonState)
    ensures
        unavailable(s) is BackendUnavailable,
{
}

/// A strain that is noted is in the list, once more only if it was not there
/// before; nothing else changes.
pub proof fn law_noted_strains(v: Seq<Seq<char>>, s: Seq<char>, t: Seq<char>)
    ensures
        noted(v, s).contains(t) <==> v.contains(t) || t == s,
        v.no_duplicates() ==> noted(v, s).no_duplicates(),
        v.len() <= noted(v, s).len() <= v.len() + 1,
        noted(v, s).take(v.len() as int) == v,
{
    let w = noted(v, s);
    assert(w.take(v.len() as int) =~= v);
    if v.contains(t) {
        let i = choose|i: int| 0 <= i < v.len() && v[i] == t;
        assert(w[i] == t);
    }
    if !v.contains(s) {
        assert(w[v.len() as int] == s);
        if w.contains(t) {
            let i = choose|i: int| 0 <= i < w.len() && w[i] == t;
            if i < v.len() {
                assert(v[i] == t);
            }
        }
    }
}

/// Purging by name removes what was named and is a tombstone, and no more.
pub proof fn law_purged_as_named(
    a: FsState,
    b: FsState,
    c: ConfigView,
    toplevel: PathView,
    wanted: Seq<Seq<char>>,
    removed: Seq<Seq<char>>,
    n: Seq<char>,
)
    requires
        purged_wanted(a, b, c, toplevel, wanted, removed, true),
    ensures
        removed.contains(n) ==> wanted.contains(n),
        exists|v: Seq<crate::cleanup::tombstones::TombstoneView>| #[trigger]
            lists_tombstones(a, c, toplevel, v) && (removed.contains(n) <==> wanted.contains(n)
                && exists|i: int| 0 <= i < v.len() && (#[trigger] v[i]).name == n),
{
    let v = choose|v: Seq<crate::cleanup::tombstones::TombstoneView>| #[trigger]
        lists_tombstones(a, c, toplevel, v) && removed == wanted_names(wanted, v);
    crate::laws::markers::law_purge_by_name(wanted, v, n);
    assert(lists_tombstones(a, c, toplevel, v));
}

/// A configuration that cannot be used is an error, and the report names the
/// file.
pub proof fn law_config_reports(path: Seq<char>, e: ErrorView)
    ensures
        config_missing(path).severity == Severity::Error,
        config_missing(path).check == "config-missing"@,
        path.is_suffix_of(config_missing(path).message),
        config_invalid(path, e).severity == Severity::Error,
        config_invalid(path, e).check == "config-invalid"@,
        crate::laws::health::occurs(path, config_invalid(path, e).message),
        e.text().is_suffix_of(config_invalid(path, e).message),
{
    let m = config_missing(path).message;
    assert(path =~= m.subrange(m.len() - path.len(), m.len() as int));
    let t = config_invalid(path, e).message;
    crate::laws::setup::lemma_occurs("failed to load "@, path, ": "@ + e.text(), t);
    assert(e.text() =~= t.subrange(t.len() - e.text().len(), t.len() as int));
}

/// The check reports every orphaned entry and every orphaned sidecar of the
/// snapshot directory, and reports nothing else as such.
pub proof fn law_check_reports(
    st: FsState,
    c: ConfigView,
    toplevel: PathView,
    entries: Seq<FindingView>,
    sidecars: Seq<FindingView>,
    nested: Seq<FindingView>,
    f: FindingView,
)
    requires
        scans(st, c, toplevel, entries, sidecars, nested, true),
        st.subvols.contains_key(path_join(toplevel, c.sys.snapshot_subvol)),
    ensures
        entries.contains(f) <==> exists|n: Seq<char>| #[trigger]
            is_orphaned_entry(st, c, path_join(toplevel, c.sys.snapshot_subvol), n) && f
                == crate::check::orphan_finding(c, n),
        sidecars.contains(f) <==> exists|n: Seq<char>| #[trigger]
            is_orphan(st, path_join(toplevel, c.sys.snapshot_subvol), n) && f
                == crate::check::sidecar_finding(n),
{
    let dir = path_join(toplevel, c.sys.snapshot_subvol);
    let names = choose|names: Seq<Seq<char>>| #[trigger]
        crate::check::findings_for(c, entries, names) && names.no_duplicates() && (forall|i: int|
            0 <= i < names.len() ==> is_orphaned_entry(st, c, dir, #[trigger] names[i])) && (
        forall|n: Seq<char>| #[trigger] is_orphaned_entry(st, c, dir, n) ==> names.contains(n));
    if entries.contains(f) {
        let i = choose|i: int| 0 <= i < entries.len() && entries[i] == f;
        assert(is_orphaned_entry(st, c, dir, names[i]));
    }
    if exists|n: Seq<char>| #[trigger]
        is_orphaned_entry(st, c, dir, n) && f == crate::check::orphan_finding(c, n) {
        let n = choose|n: Seq<char>| #[trigger]
            is_orphaned_entry(st, c, dir, n) && f == crate::check::orphan_finding(c, n);
        let i = choose|i: int| 0 <= i < names.len() && names[i] == n;
        assert(entries[i] == f);
    }
    let files = choose|files: Seq<Seq<char>>|
        sidecars == #[trigger] crate::check::sidecar_findings(files) && (forall|i: int|
            0 <= i < files.len() ==> is_orphan(st, dir, #[trigger] files[i])) && (forall|
            n: Seq<char>,
        | #[trigger]
            is_orphan(st, dir, n) ==> files.contains(n));
    if sidecars.contains(f) {
        let i = choose|i: int| 0 <= i < sidecars.len() && sidecars[i] == f;
        assert(is_orphan(st, dir, files[i]));
    }
    if exists|n: Seq<char>| #[trigger]
        is_orphan(st, dir, n) && f == crate::check::sidecar_finding(n) {
        let n = choose|n: Seq<char>| #[trigger]
            is_orphan(st, dir, n) && f == crate::check::sidecar_finding(n);
        let i = choose|i: int| 0 <= i < files.len() && files[i] == n;
        assert(sidecars[i] == f);
    }
}

} // verus!
