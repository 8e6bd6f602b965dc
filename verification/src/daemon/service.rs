//! What the daemon answers to each call.

use vstd::prelude::*;
use vstd::string::*;

use crate::assoc::{lemma_lookup_absent, lookup};
use crate::backend::effects::{grown, lemma_pruned_weaken, pruned};
use crate::backend::{removable, FileSystemBackend, FsState};
use crate::check::finding_views;
use crate::cleanup::tombstones::{
    list_tombstones, lists_tombstones, purge_tombstones_by_name, purged_wanted, tombstone_views,
    TombstoneView,
};
use crate::cleanup::recovery::recovered;
use crate::cli::commands::{
    machine_findings, missing_of, pre_view, restore_failed, restore_owed, save_current_state, saved,
    snapshot_made,
};
use crate::clock::{local_now, Moment, WallTime};
use crate::config::{
    config_fault, decode_config, refuses, Config, ConfigView, RetainConfig, StrainView,
    DEFAULT_CONFIG_PATH,
};
use crate::daemon::config_edit::{self, config_edited, retention_fault};
use crate::daemon::errors::{
    map_core_error, mapped, DaemonError, DaemonErrorView, DaemonResult,
};
use crate::daemon::marshal::{
    delete_marker_to_dict, finding_dicts, is_strain_tuple, live_parent_to_dict, marker_dict,
    snapshot_dict, snapshot_to_dict, strain_to_tuple, Dict, StrainTuple, WireView,
};
use crate::daemon::state::{degraded_text, DaemonState};
use crate::document::{all_quotes_fit, toml_document};
use crate::error::ErrorView;
use crate::lines::{law_sorted_texts, sort_texts, sorted_texts};
use crate::metadata::{is_protected, sidecar_name, TriggerKind};
use crate::path::{is_component, path_of, FsPath, PathView};
use crate::preflight::{blocking_summary, error_texts, has_error, preflight_restore};
use crate::restore::{restore_snapshot_at, restored_at};
use crate::snapshot::discovery::{
    discover_snapshots, discovered, find_snapshot, live_answer, live_told, live_view, matching,
    may_discover, resolve_live_parent, selection_error, selects, LiveParentRef,
};
use crate::snapshot::id::{
    id_fault, id_fault_text, id_moment, id_ok, is_clock_id, SnapshotId,
};
use crate::snapshot::info::{infos, InfoView, SnapshotInfo};
use crate::snapshot::operations::{
    create_snapshot_at, delete_snapshot, info_paths, info_sidecar, ready,
};
use crate::text::{cat2, cat4, joined, lemma_views_push, opt_str, same_text, views};

verus! {

/// The names of the strains.
pub open spec fn strain_names(s: Seq<(Seq<char>, StrainView)>) -> Seq<Seq<char>> {
    Seq::new(s.len(), |i: int| s[i].0)
}

/// All strains, by name.
pub fn list_strains(config: &Config) -> (r: Vec<StrainTuple>)
    ensures
        r@.len() == config@.strain.len(),
        ({
            let names = sorted_texts(strain_names(config@.strain));
            forall|i: int|
                0 <= i < r@.len() ==> is_strain_tuple(
                    #[trigger] r@[i],
                    names[i],
                    lookup(config@.strain, names[i])->0,
                )
        }),
{
    let entries = config.strain.entries();
    let ghost all = strain_names(config@.strain);
    let mut names: Vec<String> = Vec::new();
    let mut i: usize = 0;
    assert(views(names@) =~= all.take(0));
    while i < entries.len()
        invariant
            i <= entries.len(),
            config@.strain == crate::config::strain_views(entries@),
            all == strain_names(config@.strain),
            views(names@) == all.take(i as int),
        decreases entries.len() - i,
    {
        let ghost before = names@;
        let name: String = entries[i].name.clone();
        proof {
            lemma_views_push(before, name);
            assert(all.take(i + 1) =~= all.take(i as int).push(name@));
        }
        names.push(name);
        i = i + 1;
    }
    assert(all.take(i as int) =~= all);
    let sorted = sort_texts(&names);
    let ghost order = sorted_texts(all);
    proof {
        law_sorted_texts(all);
        assert(views(sorted@).len() == sorted@.len());
    }
    let mut out: Vec<StrainTuple> = Vec::new();
    let mut k: usize = 0;
    while k < sorted.len()
        invariant
            k <= sorted.len(),
            all == strain_names(config@.strain),
            order == sorted_texts(all),
            order == views(sorted@),
            forall|x: Seq<char>| #[trigger] order.contains(x) <==> all.contains(x),
            out@.len() == k,
            forall|j: int|
                0 <= j < k ==> is_strain_tuple(
                    #[trigger] out@[j],
                    order[j],
                    lookup(config@.strain, order[j])->0,
                ),
        decreases sorted.len() - k,
    {
        let name = sorted[k].as_str();
        proof {
            assert(order[k as int] == name@);
            assert(order.contains(name@));
            assert(all.contains(name@));
            if lookup(config@.strain, name@) is None {
                lemma_lookup_absent(config@.strain, name@);
                let j = choose|j: int| 0 <= j < all.len() && all[j] == name@;
                assert(config@.strain[j].0 == name@);
            }
        }
        match config.strain.get(name) {
            Some(cfg) => {
                out.push(strain_to_tuple(name, cfg));
            },
            None => {},
        }
        k = k + 1;
    }
    out
}

/// One strain.
pub fn get_strain(config: &Config, name: &str) -> (r: DaemonResult<StrainTuple>)
    ensures
        match lookup(config@.strain, name@) {
            Some(s) => r is Ok && is_strain_tuple(r->Ok_0, name@, s),
            None => r is Err && r->Err_0@ == DaemonErrorView::NotFound(
                "unknown strain: "@ + name@,
            ),
        },
{
    match config.strain.get(name) {
        Some(cfg) => Ok(strain_to_tuple(name, cfg)),
        None => Err(DaemonError::NotFound(cat2("unknown strain: ", name))),
    }
}

/// A tier of a retention policy as a client gives it: a count, or why it is
/// none.
#[derive(Debug)]
pub struct TierArg {
    pub key: String,
    pub value: core::result::Result<u32, String>,
}

/// The tiers that a client gives, by name.
pub open spec fn tier_views(v: Seq<TierArg>) -> Seq<
    (Seq<char>, core::result::Result<u32, Seq<char>>),
> {
    Seq::new(
        v.len(),
        |i: int|
            (
                v[i].key@,
                match v[i].value {
                    Ok(n) => Ok(n),
                    Err(e) => Err(e@),
                },
            ),
    )
}

/// The count of a tier: 0 where it is not given.
pub open spec fn tier(
    v: Seq<(Seq<char>, core::result::Result<u32, Seq<char>>)>,
    key: Seq<char>,
) -> core::result::Result<usize, Seq<char>> {
    match lookup(v, key) {
        None => Ok(0),
        Some(Ok(n)) => Ok(n as usize),
        Some(Err(e)) => Err(key + ": not a u32: "@ + e),
    }
}

fn read_tier(v: &Vec<TierArg>, key: &str) -> (r: DaemonResult<usize>)
    ensures
        match tier(tier_views(v@), key@) {
            Ok(n) => r is Ok && r->Ok_0 == n,
            Err(m) => r is Err && r->Err_0@ == DaemonErrorView::InvalidArgument(m),
        },
{
    let ghost all = tier_views(v@);
    let mut i: usize = 0;
    while i < v.len()
        invariant
            i <= v.len(),
            all == tier_views(v@),
            forall|j: int| 0 <= j < i ==> (#[trigger] all[j]).0 != key@,
        decreases v.len() - i,
    {
        if same_text(v[i].key.as_str(), key) {
            proof {
                crate::assoc::lemma_lookup_at(all, key@, i as int);
            }
            return match &v[i].value {
                Ok(n) => Ok(*n as usize),
                Err(e) => Err(
                    DaemonError::InvalidArgument(
                        crate::text::cat3(key, ": not a u32: ", e.as_str()),
                    ),
                ),
            };
        }
        i = i + 1;
    }
    proof {
        crate::assoc::lemma_lookup_none(all, key@);
    }
    Ok(0)
}

/// What is wrong with the first tier that is no count, if any.
pub open spec fn tier_fault(
    t: Seq<(Seq<char>, core::result::Result<u32, Seq<char>>)>,
) -> Option<Seq<char>> {
    if tier(t, "last"@) is Err {
        Some(tier(t, "last"@)->Err_0)
    } else if tier(t, "hourly"@) is Err {
        Some(tier(t, "hourly"@)->Err_0)
    } else if tier(t, "daily"@) is Err {
        Some(tier(t, "daily"@)->Err_0)
    } else if tier(t, "weekly"@) is Err {
        Some(tier(t, "weekly"@)->Err_0)
    } else if tier(t, "monthly"@) is Err {
        Some(tier(t, "monthly"@)->Err_0)
    } else if tier(t, "yearly"@) is Err {
        Some(tier(t, "yearly"@)->Err_0)
    } else {
        None
    }
}

/// The policy that the tiers of a request make.
pub open spec fn requested(
    t: Seq<(Seq<char>, core::result::Result<u32, Seq<char>>)>,
) -> RetainConfig {
    RetainConfig {
        last: tier(t, "last"@)->Ok_0,
        hourly: tier(t, "hourly"@)->Ok_0,
        daily: tier(t, "daily"@)->Ok_0,
        weekly: tier(t, "weekly"@)->Ok_0,
        monthly: tier(t, "monthly"@)->Ok_0,
        yearly: tier(t, "yearly"@)->Ok_0,
    }
}

/// Decode a retention policy. Missing tiers are disabled.
pub fn parse_retain(v: &Vec<TierArg>) -> (r: DaemonResult<RetainConfig>)
    ensures
        ({
            let t = tier_views(v@);
            match r {
                Ok(c) => tier_fault(t) is None && c == requested(t),
                Err(e) => tier_fault(t) is Some && e@ == DaemonErrorView::InvalidArgument(
                    tier_fault(t)->0,
                ),
            }
        }),
{
    let last: usize = match read_tier(v, "last") {
        Ok(n) => n,
        Err(e) => {
            return Err(e);
        },
    };
    let hourly: usize = match read_tier(v, "hourly") {
        Ok(n) => n,
        Err(e) => {
            return Err(e);
        },
    };
    let daily: usize = match read_tier(v, "daily") {
        Ok(n) => n,
        Err(e) => {
            return Err(e);
        },
    };
    let weekly: usize = match read_tier(v, "weekly") {
        Ok(n) => n,
        Err(e) => {
            return Err(e);
        },
    };
    let monthly: usize = match read_tier(v, "monthly") {
        Ok(n) => n,
        Err(e) => {
            return Err(e);
        },
    };
    let yearly: usize = match read_tier(v, "yearly") {
        Ok(n) => n,
        Err(e) => {
            return Err(e);
        },
    };
    Ok(RetainConfig { last, hourly, daily, weekly, monthly, yearly })
}

/// When a snapshot was made: by its record, or by its ID.
pub open spec fn made_at(s: InfoView) -> Option<Moment> {
    match s.metadata {
        Some(m) => Some(Moment { secs: m.created_at.secs, nanos: m.created_at.nanos }),
        None => id_moment(s.id),
    }
}

/// Whether `a` was made before `b`. One of unknown time comes first.
pub open spec fn made_before(a: InfoView, b: InfoView) -> bool {
    match (made_at(a), made_at(b)) {
        (Some(x), Some(y)) => x.earlier(y),
        (None, Some(_)) => true,
        _ => false,
    }
}

/// The latest snapshot, and of several the last in the list.
pub open spec fn latest(v: Seq<InfoView>) -> Option<InfoView>
    decreases v.len(),
{
    if v.len() == 0 {
        None
    } else {
        match latest(v.drop_last()) {
            None => Some(v.last()),
            Some(b) => if made_before(v.last(), b) {
                Some(b)
            } else {
                Some(v.last())
            },
        }
    }
}

/// No snapshot is later than the latest, which is one of them.
pub proof fn law_latest_is_latest(v: Seq<InfoView>)
    requires
        v.len() > 0,
    ensures
        latest(v) is Some,
        v.contains(latest(v)->0),
        forall|i: int| 0 <= i < v.len() ==> !made_before(latest(v)->0, #[trigger] v[i]),
    decreases v.len(),
{
    let init = v.drop_last();
    assert(v[v.len() - 1] == v.last());
    if init.len() > 0 {
        law_latest_is_latest(init);
        let b = latest(init)->0;
        let k = choose|k: int| 0 <= k < init.len() && init[k] == b;
        assert(v[k] == b);
        assert forall|i: int| 0 <= i < v.len() implies !made_before(
            latest(v)->0,
            #[trigger] v[i],
        ) by {
            if i < init.len() {
                assert(init[i] == v[i]);
            }
        }
    }
}

fn moment_of(s: &SnapshotInfo) -> (r: Option<Moment>)
    ensures
        r == made_at(s@),
{
    match &s.metadata {
        Some(m) => Some(Moment { secs: m.created_at.secs, nanos: m.created_at.nanos }),
        None => s.id.created_at(),
    }
}

/// Strain that holds the most recently made snapshot; empty where there is
/// none.
pub fn get_latest_strain(snapshots: &Vec<SnapshotInfo>) -> (r: String)
    ensures
        r@ == (match latest(infos(snapshots@)) {
            Some(s) => s.strain,
            None => Seq::empty(),
        }),
{
    let ghost v = infos(snapshots@);
    if snapshots.len() == 0 {
        return String::new();
    }
    let mut best: usize = 0;
    let mut i: usize = 1;
    proof {
        reveal_with_fuel(latest, 2);
        assert(v.take(1).drop_last() =~= Seq::empty());
        assert(v.take(1).last() == v[0]);
    }
    while i < snapshots.len()
        invariant
            1 <= i <= snapshots.len(),
            best < i,
            v == infos(snapshots@),
            latest(v.take(i as int)) == Some(v[best as int]),
        decreases snapshots.len() - i,
    {
        proof {
            assert(v.take(i + 1).drop_last() =~= v.take(i as int));
            assert(v.take(i + 1).last() == v[i as int]);
        }
        let older = match (moment_of(&snapshots[i]), moment_of(&snapshots[best])) {
            (Some(x), Some(y)) => x.before(&y),
            (None, Some(_)) => true,
            _ => false,
        };
        if !older {
            best = i;
        }
        i = i + 1;
    }
    assert(v.take(i as int) =~= v);
    snapshots[best].strain.clone()
}

/// The dictionaries of some values.
pub open spec fn dict_views(v: Seq<Dict>) -> Seq<Seq<(Seq<char>, WireView)>> {
    Seq::new(v.len(), |i: int| v[i]@)
}

/// The dictionaries of those snapshots that a filter on the strain lets
/// through.
pub open spec fn snapshot_dicts(
    v: Seq<InfoView>,
    strain: Option<Seq<char>>,
    live: Option<(Seq<char>, Seq<char>)>,
) -> Seq<Seq<(Seq<char>, WireView)>>
    decreases v.len(),
{
    if v.len() == 0 {
        Seq::empty()
    } else {
        let before = snapshot_dicts(v.drop_last(), strain, live);
        if strain is None || v.last().strain == strain->0 {
            before.push(snapshot_dict(v.last(), live))
        } else {
            before
        }
    }
}

/// The dictionaries of those snapshots that a filter on the strain lets
/// through.
pub fn marshal_snapshots(
    snapshots: &Vec<SnapshotInfo>,
    strain: Option<&str>,
    live: Option<&LiveParentRef>,
) -> (r: Vec<Dict>)
    ensures
        dict_views(r@) == snapshot_dicts(infos(snapshots@), opt_str(strain), live_view(live)),
{
    let ghost v = infos(snapshots@);
    let ghost f = opt_str(strain);
    let ghost l = live_view(live);
    let mut out: Vec<Dict> = Vec::new();
    let mut i: usize = 0;
    assert(v.take(0) =~= Seq::empty());
    assert(dict_views(out@) =~= snapshot_dicts(v.take(0), f, l));
    while i < snapshots.len()
        invariant
            i <= snapshots.len(),
            v == infos(snapshots@),
            f == opt_str(strain),
            l == live_view(live),
            dict_views(out@) == snapshot_dicts(v.take(i as int), f, l),
        decreases snapshots.len() - i,
    {
        let s = &snapshots[i];
        let ghost before = out@;
        proof {
            assert(v.take(i + 1).drop_last() =~= v.take(i as int));
            assert(v.take(i + 1).last() == s@);
        }
        let wanted = match strain {
            Some(w) => same_text(s.strain.as_str(), w),
            None => true,
        };
        if wanted {
            let d = snapshot_to_dict(s, live);
            out.push(d);
            assert(dict_views(out@) =~= dict_views(before).push(d@));
        }
        i = i + 1;
    }
    assert(v.take(i as int) =~= v);
    out
}

/// All snapshots, or those of a strain.
pub fn list_snapshots<B: FileSystemBackend>(
    config: &Config,
    backend: &B,
    toplevel: &FsPath,
    strain: Option<&str>,
) -> (r: DaemonResult<Vec<Dict>>)
    ensures
        backend.reliable() ==> r is Ok,
        match r {
            Ok(v) => exists|all: Seq<InfoView>, live: Option<(Seq<char>, Seq<char>)>|
                may_discover(backend.state(), config@, toplevel@, all, backend.reliable()) && live_told(
                    backend.state(),
                    config@,
                    toplevel@,
                    live,
                    backend.reliable(),
                ) && dict_views(v@) == #[trigger] snapshot_dicts(all, opt_str(strain), live),
            Err(x) => exists|e: ErrorView| x@ == #[trigger] mapped(e),
        },
{
    let all = match discover_snapshots(config, backend, toplevel) {
        Ok(v) => v,
        Err(e) => {
            return Err(map_core_error(&e));
        },
    };
    let live = resolve_live_parent(config, backend, toplevel);
    let l = match &live {
        Some(x) => Some(x),
        None => None,
    };
    let out: DaemonResult<Vec<Dict>> = Ok(marshal_snapshots(&all, strain, l));
    assert(dict_views(out->Ok_0@) == snapshot_dicts(infos(all@), opt_str(strain), live_view(l)));
    out
}

/// The error for a malformed ID.
pub open spec fn bad_id(id: Seq<char>) -> DaemonErrorView {
    DaemonErrorView::InvalidArgument(
        "invalid snapshot id "@ + id + ": "@ + id_fault_text(
            id_fault(vstd::utf8::encode_utf8(id))->0,
            id,
        ),
    )
}

fn parse_id(id: &str) -> (r: DaemonResult<SnapshotId>)
    ensures
        match r {
            Ok(s) => id_ok(id@) && s@ == id@,
            Err(e) => !id_ok(id@) && e@ == bad_id(id@),
        },
{
    match SnapshotId::from_string(id) {
        Ok(s) => Ok(s),
        Err(e) => Err(
            DaemonError::InvalidArgument(
                cat4("invalid snapshot id ", id, ": ", e.message().as_str()),
            ),
        ),
    }
}

/// Whether `r` is the snapshot `id` of a strain among `all`, or the error
/// where there is none.
pub open spec fn picks(
    all: Seq<InfoView>,
    strain: Seq<char>,
    id: Seq<char>,
    r: DaemonResult<SnapshotInfo>,
) -> bool {
    let m = matching(all, id, Some(strain));
    if m.len() == 1 {
        r is Ok && r->Ok_0@ == m[0]
    } else {
        r is Err && r->Err_0@ == mapped(selection_error(m, id))
    }
}

/// Find a snapshot of a strain by its ID.
pub fn lookup_snapshot<B: FileSystemBackend>(
    config: &Config,
    backend: &B,
    toplevel: &FsPath,
    strain: &str,
    id: &str,
) -> (r: DaemonResult<SnapshotInfo>)
    ensures
        !id_ok(id@) ==> r is Err && r->Err_0@ == bad_id(id@),
        id_ok(id@) && backend.reliable() ==> exists|all: Seq<InfoView>|
            discovered(backend.state(), config@, toplevel@, all) && #[trigger] picks(
                all,
                strain@,
                id@,
                r,
            ),
        r is Ok ==> r->Ok_0@.strain == strain@ && r->Ok_0@.id == id@,
{
    let snap_id = match parse_id(id) {
        Ok(s) => s,
        Err(e) => {
            return Err(e);
        },
    };
    match find_snapshot(config, backend, toplevel, &snap_id, Some(strain)) {
        Ok(s) => {
            let out: DaemonResult<SnapshotInfo> = Ok(s);
            proof {
                if backend.reliable() {
                    let found: crate::error::Result<SnapshotInfo> = Ok(s);
                    let all = choose|all: Seq<InfoView>|
                        discovered(backend.state(), config@, toplevel@, all)
                            && #[trigger] selects(all, id@, Some(strain@), found);
                    assert(picks(all, strain@, id@, out));
                }
            }
            out
        },
        Err(e) => {
            let out: DaemonResult<SnapshotInfo> = Err(map_core_error(&e));
            proof {
                if backend.reliable() {
                    let found: crate::error::Result<SnapshotInfo> = Err(e);
                    let all = choose|all: Seq<InfoView>|
                        discovered(backend.state(), config@, toplevel@, all)
                            && #[trigger] selects(all, id@, Some(strain@), found);
                    assert(picks(all, strain@, id@, out));
                }
            }
            out
        },
    }
}

/// Whether `d` is the dictionary of a snapshot, with the right answer to
/// whether the live subvolume was cloned from it.
pub open spec fn is_snapshot_dict(
    st: FsState,
    c: ConfigView,
    toplevel: PathView,
    s: InfoView,
    d: Dict,
) -> bool {
    exists|live: Option<(Seq<char>, Seq<char>)>|
        live_answer(st, c, toplevel, live) && d@ == #[trigger] snapshot_dict(s, live)
}

/// Whether `r` is the answer to a query for the snapshot `id` of a strain,
/// where `all` are the snapshots there are.
pub open spec fn answers(
    st: FsState,
    c: ConfigView,
    toplevel: PathView,
    all: Seq<InfoView>,
    strain: Seq<char>,
    id: Seq<char>,
    r: DaemonResult<Dict>,
) -> bool {
    let m = matching(all, id, Some(strain));
    if m.len() == 1 {
        r is Ok && is_snapshot_dict(st, c, toplevel, m[0], r->Ok_0)
    } else {
        r is Err && r->Err_0@ == mapped(selection_error(m, id))
    }
}

/// The dictionary of a snapshot, with whether the live subvolume was cloned
/// from it.
fn describe<B: FileSystemBackend>(
    config: &Config,
    backend: &B,
    toplevel: &FsPath,
    snap: &SnapshotInfo,
) -> (r: Dict)
    ensures
        backend.reliable() ==> is_snapshot_dict(
            backend.state(),
            config@,
            toplevel@,
            snap@,
            r,
        ),
{
    let live = resolve_live_parent(config, backend, toplevel);
    let l = match &live {
        Some(x) => Some(x),
        None => None,
    };
    let d = snapshot_to_dict(snap, l);
    assert(d@ == snapshot_dict(snap@, live_view(l)));
    d
}

/// One snapshot of a strain.
pub fn get_snapshot<B: FileSystemBackend>(
    config: &Config,
    backend: &B,
    toplevel: &FsPath,
    strain: &str,
    id: &str,
) -> (r: DaemonResult<Dict>)
    ensures
        !id_ok(id@) ==> r is Err && r->Err_0@ == bad_id(id@),
        id_ok(id@) && backend.reliable() ==> exists|all: Seq<InfoView>|
            discovered(backend.state(), config@, toplevel@, all) && #[trigger] answers(
                backend.state(),
                config@,
                toplevel@,
                all,
                strain@,
                id@,
                r,
            ),
{
    let found = lookup_snapshot(config, backend, toplevel, strain, id);
    let ghost all = choose|all: Seq<InfoView>|
        discovered(backend.state(), config@, toplevel@, all) && #[trigger] picks(
            all,
            strain@,
            id@,
            found,
        );
    let out: DaemonResult<Dict> = match found {
        Ok(snap) => Ok(describe(config, backend, toplevel, &snap)),
        Err(e) => Err(e),
    };
    assert(id_ok(id@) && backend.reliable() ==> answers(
        backend.state(),
        config@,
        toplevel@,
        all,
        strain@,
        id@,
        out,
    ));
    out
}

/// Whether `r` is what a request to take a snapshot gives that found the system
/// in `a` and left it in `b`, where the snapshot is `id`, taken at
/// `created_at`.
pub open spec fn creation(
    a: FsState,
    b: FsState,
    c: ConfigView,
    toplevel: PathView,
    strain: Seq<char>,
    message: Seq<Seq<char>>,
    exact: bool,
    id: Seq<char>,
    created_at: WallTime,
    r: DaemonResult<Dict>,
) -> bool {
    &&& lookup(c.strain, strain) is None ==> r is Err && b == a && r->Err_0@ == mapped(
        ErrorView::Config("unknown strain: "@ + strain),
    )
    &&& r is Ok ==> exists|s: InfoView| #[trigger]
        snapshot_made(
            a,
            b,
            c,
            toplevel,
            strain,
            TriggerKind::Manual,
            message,
            id,
            created_at,
            s,
        ) && (exact ==> is_snapshot_dict(b, c, toplevel, s, r->Ok_0)) && (exact && is_component(
            sidecar_name(strain, id),
        ) && all_quotes_fit(message) ==> s.metadata is Some)
    &&& exact && ready(a, c, toplevel, strain, id) ==> r is Ok
    &&& r is Err ==> grown(a, b)
}

/// Take the snapshot `id`, as taken at `created_at`, on behalf of a user.
pub fn take_snapshot_at<B: FileSystemBackend>(
    config: &Config,
    backend: &mut B,
    toplevel: &FsPath,
    strain: &str,
    message: Vec<String>,
    id: SnapshotId,
    created_at: WallTime,
) -> (r: DaemonResult<Dict>)
    requires
        created_at.wf(),
    ensures
        final(backend).reliable() == old(backend).reliable(),
        creation(
            old(backend).state(),
            final(backend).state(),
            config@,
            toplevel@,
            strain@,
            views(message@),
            old(backend).reliable(),
            id@,
            created_at,
            r,
        ),
{
    let ghost a = backend.state();
    let ghost items = views(message@);
    let ghost the_id = id@;
    match create_snapshot_at(
        config,
        backend,
        toplevel,
        strain,
        TriggerKind::Manual,
        message,
        id,
        created_at,
    ) {
        Ok(info) => {
            let out: DaemonResult<Dict> = Ok(describe(config, backend, toplevel, &info));
            assert(snapshot_made(
                a,
                backend.state(),
                config@,
                toplevel@,
                strain@,
                TriggerKind::Manual,
                items,
                the_id,
                created_at,
                info@,
            ));
            out
        },
        Err(e) => Err(map_core_error(&e)),
    }
}

/// Take a snapshot on behalf of a user, now.
pub fn take_snapshot<B: FileSystemBackend>(
    config: &Config,
    backend: &mut B,
    toplevel: &FsPath,
    strain: &str,
    message: Vec<String>,
) -> (r: DaemonResult<Dict>)
    ensures
        final(backend).reliable() == old(backend).reliable(),
        exists|id: Seq<char>, created_at: WallTime|
            is_clock_id(id) && created_at.wf() && #[trigger] creation(
                old(backend).state(),
                final(backend).state(),
                config@,
                toplevel@,
                strain@,
                views(message@),
                old(backend).reliable(),
                id,
                created_at,
                r,
            ),
{
    let id = SnapshotId::now();
    let created_at = local_now();
    take_snapshot_at(config, backend, toplevel, strain, message, id, created_at)
}

/// Whether `r` is what a request to delete a snapshot gives that found in `a`
/// the snapshots `m` with the given ID and left `b`.
pub open spec fn removal(
    a: FsState,
    b: FsState,
    c: ConfigView,
    toplevel: PathView,
    m: Seq<InfoView>,
    id: Seq<char>,
    r: DaemonResult<()>,
) -> bool {
    let s = m[0];
    if m.len() != 1 {
        r is Err && b == a && r->Err_0@ == mapped(selection_error(m, id))
    } else if is_protected(s.metadata) {
        r is Err && b == a && r->Err_0@ == mapped(
            ErrorView::ProtectedSnapshot { strain: s.strain, id: s.id },
        )
    } else {
        &&& pruned(
            a,
            b,
            info_paths(c, toplevel, s),
            seq![info_sidecar(c, toplevel, s)],
            r is Ok,
        )
        &&& (forall|i: int|
            0 <= i < s.subvolumes.len() ==> removable(
                a,
                #[trigger] info_paths(c, toplevel, s)[i],
            )) ==> r is Ok
    }
}

proof fn lemma_removed_nothing(
    a: FsState,
    c: ConfigView,
    toplevel: PathView,
    strain: Seq<char>,
    id: Seq<char>,
)
    ensures
        exists|s: InfoView|
            s.strain == strain && s.id == id && !is_protected(s.metadata) && #[trigger] pruned(
                a,
                a,
                info_paths(c, toplevel, s),
                seq![info_sidecar(c, toplevel, s)],
                false,
            ),
{
    let s = InfoView {
        id,
        strain,
        subvolumes: Seq::empty(),
        efi_synced: false,
        metadata: None,
    };
    assert(pruned(
        a,
        a,
        info_paths(c, toplevel, s),
        seq![info_sidecar(c, toplevel, s)],
        false,
    ));
}

/// Delete a snapshot of a strain.
pub fn remove_snapshot<B: FileSystemBackend>(
    config: &Config,
    backend: &mut B,
    toplevel: &FsPath,
    strain: &str,
    id: &str,
) -> (r: DaemonResult<()>)
    ensures
        final(backend).reliable() == old(backend).reliable(),
        !id_ok(id@) ==> r is Err && r->Err_0@ == bad_id(id@) && final(backend).state() == old(
            backend).state(),
        id_ok(id@) && old(backend).reliable() ==> exists|all: Seq<InfoView>| #[trigger]
            discovered(old(backend).state(), config@, toplevel@, all) && removal(
                old(backend).state(),
                final(backend).state(),
                config@,
                toplevel@,
                matching(all, id@, Some(strain@)),
                id@,
                r,
            ),
        exists|s: InfoView|
            s.strain == strain@ && s.id == id@ && !is_protected(s.metadata) && #[trigger] pruned(
                old(backend).state(),
                final(backend).state(),
                info_paths(config@, toplevel@, s),
                seq![info_sidecar(config@, toplevel@, s)],
                false,
            ),
{
    let ghost a = backend.state();
    let ghost exact = backend.reliable();
    let found = lookup_snapshot(config, backend, toplevel, strain, id);
    let ghost all = choose|all: Seq<InfoView>|
        discovered(a, config@, toplevel@, all) && #[trigger] picks(all, strain@, id@, found);
    proof {
        lemma_removed_nothing(a, config@, toplevel@, strain@, id@);
    }
    let snap = match found {
        Ok(s) => s,
        Err(e) => {
            return Err(e);
        },
    };
    let done = delete_snapshot(config, backend, toplevel, &snap);
    let out: DaemonResult<()> = match done {
        Ok(_) => Ok(()),
        Err(e) => Err(map_core_error(&e)),
    };
    proof {
        let paths = info_paths(config@, toplevel@, snap@);
        let files = seq![info_sidecar(config@, toplevel@, snap@)];
        if out is Ok && exact {
            lemma_pruned_weaken(a, backend.state(), paths, files);
        }
        assert(pruned(a, backend.state(), paths, files, false));
        assert(exact ==> removal(
            a,
            backend.state(),
            config@,
            toplevel@,
            matching(all, id@, Some(strain@)),
            id@,
            out,
        ));
    }
    out
}

/// The dictionaries of some markers.
pub open spec fn marker_dicts(v: Seq<TombstoneView>) -> Seq<
    Seq<(Seq<char>, WireView)>,
> {
    Seq::new(v.len(), |i: int| marker_dict(v[i]))
}

/// All DELETE markers.
pub fn list_delete_markers<B: FileSystemBackend>(config: &Config, backend: &B, toplevel: &FsPath) -> (r:
    DaemonResult<Vec<Dict>>)
    ensures
        backend.reliable() ==> r is Ok,
        r is Ok ==> exists|t: Seq<TombstoneView>|
            lists_tombstones(backend.state(), config@, toplevel@, t) && dict_views(r->Ok_0@)
                == #[trigger] marker_dicts(t),
{
    let all = match list_tombstones(config, backend, toplevel) {
        Ok(v) => v,
        Err(e) => {
            return Err(map_core_error(&e));
        },
    };
    let ghost t = tombstone_views(all@);
    let mut out: Vec<Dict> = Vec::new();
    let mut i: usize = 0;
    assert(dict_views(out@) =~= marker_dicts(t).take(0));
    while i < all.len()
        invariant
            i <= all.len(),
            t == tombstone_views(all@),
            dict_views(out@) == marker_dicts(t).take(i as int),
        decreases all.len() - i,
    {
        let d = delete_marker_to_dict(&all[i]);
        let ghost before = out@;
        proof {
            assert(t[i as int] == all@[i as int]@);
            assert(marker_dicts(t).take(i + 1) =~= marker_dicts(t).take(i as int).push(d@));
        }
        out.push(d);
        assert(dict_views(out@) =~= dict_views(before).push(d@));
        i = i + 1;
    }
    let r: DaemonResult<Vec<Dict>> = Ok(out);
    assert(marker_dicts(t).take(i as int) =~= marker_dicts(t));
    assert(dict_views(r->Ok_0@) == marker_dicts(t));
    r
}

/// Purge those DELETE markers that are named. Names that match none are left
/// out of the result.
pub fn purge_delete_markers<B: FileSystemBackend>(
    config: &Config,
    backend: &mut B,
    toplevel: &FsPath,
    names: &Vec<String>,
) -> (r: DaemonResult<Vec<String>>)
    ensures
        final(backend).reliable() == old(backend).reliable(),
        names@.len() == 0 ==> r is Ok && r->Ok_0@.len() == 0 && final(backend).state() == old(
            backend).state(),
        old(backend).reliable() ==> r is Ok,
        r is Ok && names@.len() > 0 ==> exists|mid: FsState, n: nat| #[trigger]
            recovered(
                old(backend).state(),
                mid,
                config@,
                toplevel@,
                n,
                old(backend).reliable(),
            ) && purged_wanted(
                mid,
                final(backend).state(),
                config@,
                toplevel@,
                views(names@),
                views(r->Ok_0@),
                old(backend).reliable(),
            ),
{
    match purge_tombstones_by_name(config, backend, toplevel, names) {
        Ok(v) => Ok(v),
        Err(e) => Err(map_core_error(&e)),
    }
}

/// The snapshot that the live subvolume was cloned from; empty where it cannot
/// be told.
pub fn get_live_parent<B: FileSystemBackend>(config: &Config, backend: &B, toplevel: &FsPath) -> (r:
    Dict)
    ensures
        exists|live: Option<(Seq<char>, Seq<char>)>| #[trigger]
            live_told(backend.state(), config@, toplevel@, live, backend.reliable()) && r@
                == match live {
                Some(x) => seq![
                    ("strain"@, WireView::Text(x.0)),
                    ("id"@, WireView::Text(x.1)),
                ],
                None => Seq::empty(),
            },
{
    let live = resolve_live_parent(config, backend, toplevel);
    let l = match &live {
        Some(x) => Some(x),
        None => None,
    };
    let d = live_parent_to_dict(l);
    assert(live_told(
        backend.state(),
        config@,
        toplevel@,
        live_view(l),
        backend.reliable(),
    ));
    d
}

/// The start of the answer to a restore.
pub open spec fn restore_head(
    strain: Seq<char>,
    id: Seq<char>,
    dry_run: bool,
    machines: Seq<Seq<char>>,
) -> Seq<(Seq<char>, WireView)> {
    seq![
        ("restored_id"@, WireView::Text(id)),
        ("restored_strain"@, WireView::Text(strain)),
        ("dry_run"@, WireView::Flag(dry_run)),
        ("findings"@, WireView::Dicts(finding_dicts(machine_findings(machines)))),
    ]
}

/// Whether a restore of `s` that turned `a` into `b`, with `m` between the
/// saving of the current state and the restore, gives the answer `d`.
pub open spec fn restore_answer(
    a: FsState,
    m: FsState,
    b: FsState,
    c: ConfigView,
    toplevel: PathView,
    s: InfoView,
    save_current: bool,
    id: Seq<char>,
    created_at: WallTime,
    ts: Seq<char>,
    head: Seq<(Seq<char>, WireView)>,
    d: Seq<(Seq<char>, WireView)>,
) -> bool {
    &&& restored_at(m, b, c, toplevel, s, ts)
    &&& exists|pre: Option<InfoView>| #[trigger]
        saved(a, m, c, toplevel, s, save_current, id, created_at, pre) && d == head + pre_fields(
            pre,
        )
}

/// What the answer to a restore tells of the snapshot of the previous state.
pub open spec fn pre_fields(pre: Option<InfoView>) -> Seq<(Seq<char>, WireView)> {
    match pre {
        Some(p) => seq![
            ("pre_restore_id"@, WireView::Text(p.id)),
            ("pre_restore_strain"@, WireView::Text(p.strain)),
        ],
        None => Seq::empty(),
    }
}

/// Whether `r` is what a restore of `s` gives that found the system in `a`,
/// saves it first where that is asked for, and leaves `b`. `head` is the start
/// of the answer.
pub open spec fn restoration(
    a: FsState,
    b: FsState,
    c: ConfigView,
    toplevel: PathView,
    s: InfoView,
    save: bool,
    id: Seq<char>,
    created_at: WallTime,
    ts: Seq<char>,
    head: Seq<(Seq<char>, WireView)>,
    exact: bool,
    r: DaemonResult<Dict>,
) -> bool {
    &&& r is Ok ==> exists|m: FsState| #[trigger]
        restore_answer(a, m, b, c, toplevel, s, save, id, created_at, ts, head, r->Ok_0@)
    &&& r is Err && lookup(c.strain, s.strain) is Some ==> restore_failed(
        a,
        b,
        c,
        toplevel,
        s,
        save,
        id,
        created_at,
        ts,
    )
    &&& lookup(c.strain, s.strain) is None ==> r is Err && b == a && r->Err_0@ == mapped(
        ErrorView::Config("unknown strain: "@ + s.strain),
    )
    &&& exact ==> restore_owed(a, c, toplevel, s, save, id, created_at, ts, r is Ok)
    &&& exact && !save && lookup(c.strain, s.strain) is Some && missing_of(
        a,
        c,
        toplevel,
        s,
    ).len() > 0 ==> r is Err && b == a && r->Err_0@ == mapped(
        ErrorView::IncompleteSnapshot { id: s.id, missing: missing_of(a, c, toplevel, s) },
    )
}

/// Adds to the answer what it tells of the snapshot of the previous state.
fn with_pre_restore(out: Dict, pre: &Option<SnapshotInfo>) -> (r: Dict)
    ensures
        r@ == out@ + pre_fields(pre_view(*pre)),
{
    let ghost head = out@;
    let mut out = out;
    match pre {
        Some(p) => {
            out.insert_str("pre_restore_id", p.id.as_str());
            out.insert_str("pre_restore_strain", p.strain.as_str());
        },
        None => {},
    }
    assert(out@ =~= head + pre_fields(pre_view(*pre)));
    out
}

/// Restore a snapshot, after the current state was saved where `save` says so.
/// Gives the snapshot that was taken of it.
fn save_then_restore<B: FileSystemBackend>(
    config: &Config,
    backend: &mut B,
    toplevel: &FsPath,
    snap: &SnapshotInfo,
    save: bool,
    id: SnapshotId,
    created_at: WallTime,
    ts: &SnapshotId,
) -> (r: DaemonResult<Option<SnapshotInfo>>)
    requires
        created_at.wf(),
    ensures
        final(backend).reliable() == old(backend).reliable(),
        r is Ok ==> exists|m: FsState| #[trigger]
            saved(
                old(backend).state(),
                m,
                config@,
                toplevel@,
                snap@,
                save,
                id@,
                created_at,
                pre_view(r->Ok_0),
            ) && restored_at(m, final(backend).state(), config@, toplevel@, snap@, ts@),
        r is Err && lookup(config@.strain, snap@.strain) is Some ==> restore_failed(
            old(backend).state(),
            final(backend).state(),
            config@,
            toplevel@,
            snap@,
            save,
            id@,
            created_at,
            ts@,
        ),
        lookup(config@.strain, snap@.strain) is None ==> r is Err && final(backend).state() == old(
            backend).state() && r->Err_0@ == mapped(
            ErrorView::Config("unknown strain: "@ + snap@.strain),
        ),
        old(backend).reliable() ==> restore_owed(
            old(backend).state(),
            config@,
            toplevel@,
            snap@,
            save,
            id@,
            created_at,
            ts@,
            r is Ok,
        ),
        old(backend).reliable() && !save && lookup(config@.strain, snap@.strain) is Some
            && missing_of(old(backend).state(), config@, toplevel@, snap@).len() > 0 ==> r is Err
            && final(backend).state() == old(backend).state() && r->Err_0@ == mapped(
            ErrorView::IncompleteSnapshot {
                id: snap@.id,
                missing: missing_of(old(backend).state(), config@, toplevel@, snap@),
            },
        ),
{
    let ghost a = backend.state();
    let ghost the_id = id@;
    let pre = match save_current_state(config, backend, toplevel, snap, save, id, created_at) {
        Ok(p) => p,
        Err(e) => {
            return Err(map_core_error(&e));
        },
    };
    let ghost m = backend.state();
    assert(saved(a, m, config@, toplevel@, snap@, save, the_id, created_at, pre_view(pre)));
    match restore_snapshot_at(config, backend, toplevel, snap, ts) {
        Ok(_) => {
            let out: DaemonResult<Option<SnapshotInfo>> = Ok(pre);
            assert(saved(
                a,
                m,
                config@,
                toplevel@,
                snap@,
                save,
                the_id,
                created_at,
                pre_view(out->Ok_0),
            ));
            out
        },
        Err(e) => Err(map_core_error(&e)),
    }
}

/// Restore a snapshot, after the current state was saved where `save` says so.
/// `out` is the start of the answer.
fn save_and_restore<B: FileSystemBackend>(
    config: &Config,
    backend: &mut B,
    toplevel: &FsPath,
    snap: &SnapshotInfo,
    save: bool,
    id: SnapshotId,
    created_at: WallTime,
    ts: &SnapshotId,
    out: Dict,
) -> (r: DaemonResult<Dict>)
    requires
        created_at.wf(),
    ensures
        final(backend).reliable() == old(backend).reliable(),
        restoration(
            old(backend).state(),
            final(backend).state(),
            config@,
            toplevel@,
            snap@,
            save,
            id@,
            created_at,
            ts@,
            out@,
            old(backend).reliable(),
            r,
        ),
{
    let ghost a = backend.state();
    let ghost head = out@;
    let ghost the_id = id@;
    match save_then_restore(config, backend, toplevel, snap, save, id, created_at, ts) {
        Ok(pre) => {
            let ghost m = choose|m: FsState| #[trigger]
                saved(
                    a,
                    m,
                    config@,
                    toplevel@,
                    snap@,
                    save,
                    the_id,
                    created_at,
                    pre_view(pre),
                ) && restored_at(m, backend.state(), config@, toplevel@, snap@, ts@);
            let r: DaemonResult<Dict> = Ok(with_pre_restore(out, &pre));
            assert(restore_answer(
                a,
                m,
                backend.state(),
                config@,
                toplevel@,
                snap@,
                save,
                the_id,
                created_at,
                ts@,
                head,
                r->Ok_0@,
            ));
            r
        },
        Err(e) => Err(e),
    }
}

/// Whether the current state is saved before a restore: unless it was asked
/// not to be.
pub open spec fn saves(save_current: Option<bool>) -> bool {
    save_current != Some(false)
}

/// Whether a restore is only to be tried: if it was asked to be.
pub open spec fn is_dry(dry_run: Option<bool>) -> bool {
    dry_run == Some(true)
}

/// Whether `r` is what a request to restore a snapshot gives that found in `a`
/// the snapshots `m` with the given ID and left `b`.
pub open spec fn restore_reply(
    a: FsState,
    b: FsState,
    c: ConfigView,
    toplevel: PathView,
    m: Seq<InfoView>,
    strain: Seq<char>,
    id: Seq<char>,
    save: bool,
    dry: bool,
    machines: Seq<Seq<char>>,
    new_id: Seq<char>,
    created_at: WallTime,
    ts: Seq<char>,
    r: DaemonResult<Dict>,
) -> bool {
    if m.len() != 1 {
        r is Err && b == a && r->Err_0@ == mapped(selection_error(m, id))
    } else if dry {
        r is Ok && b == a && r->Ok_0@ == restore_head(strain, id, true, machines)
    } else if has_error(machine_findings(machines)) {
        r is Err && b == a && r->Err_0@ == DaemonErrorView::PreflightBlocked(
            joined(error_texts(machine_findings(machines)), "; "@),
        )
    } else {
        restoration(
            a,
            b,
            c,
            toplevel,
            m[0],
            save,
            new_id,
            created_at,
            ts,
            restore_head(strain, id, false, machines),
            true,
            r,
        )
    }
}

/// Whether a request to restore a snapshot of a strain that found the system in
/// `a` and left it in `b` gives `r`, where the state before it is saved as the
/// snapshot `new_id` taken at `created_at` and `ts` is the timestamp of the
/// restore.
pub open spec fn restore_request(
    a: FsState,
    b: FsState,
    c: ConfigView,
    toplevel: PathView,
    strain: Seq<char>,
    id: Seq<char>,
    save: bool,
    dry: bool,
    machines: Seq<Seq<char>>,
    exact: bool,
    new_id: Seq<char>,
    created_at: WallTime,
    ts: Seq<char>,
    r: DaemonResult<Dict>,
) -> bool {
    &&& !id_ok(id) ==> r is Err && r->Err_0@ == bad_id(id) && b == a
    &&& id_ok(id) && exact ==> exists|all: Seq<InfoView>| #[trigger]
        discovered(a, c, toplevel, all) && restore_reply(
            a,
            b,
            c,
            toplevel,
            matching(all, id, Some(strain)),
            strain,
            id,
            save,
            dry,
            machines,
            new_id,
            created_at,
            ts,
            r,
        )
    &&& r is Ok && !dry ==> exists|m: FsState, s: InfoView|
        s.strain == strain && s.id == id && #[trigger] restore_answer(
            a,
            m,
            b,
            c,
            toplevel,
            s,
            save,
            new_id,
            created_at,
            ts,
            restore_head(strain, id, false, machines),
            r->Ok_0@,
        )
    &&& r is Ok && dry ==> b == a
    &&& r is Err ==> b == a || exists|s: InfoView|
        s.strain == strain && s.id == id && #[trigger] restore_failed(
            a,
            b,
            c,
            toplevel,
            s,
            save,
            new_id,
            created_at,
            ts,
        )
}

/// Restore a snapshot of a strain. Findings that are errors block it, unless
/// it is a dry run, which changes nothing. The current state is saved first
/// unless `save_current` says otherwise, and if that fails nothing is restored.
/// `machines` are those registered with systemd-machined.
///
/// The state before the restore is saved as the snapshot `new_id` taken at
/// `created_at`, and `ts` is the timestamp of the DELETE markers.
pub fn restore_at<B: FileSystemBackend>(
    config: &Config,
    backend: &mut B,
    toplevel: &FsPath,
    strain: &str,
    id: &str,
    save_current: Option<bool>,
    dry_run: Option<bool>,
    machines: &Vec<String>,
    new_id: SnapshotId,
    created_at: WallTime,
    ts: &SnapshotId,
) -> (r: DaemonResult<Dict>)
    requires
        created_at.wf(),
    ensures
        final(backend).reliable() == old(backend).reliable(),
        restore_request(
            old(backend).state(),
            final(backend).state(),
            config@,
            toplevel@,
            strain@,
            id@,
            saves(save_current),
            is_dry(dry_run),
            views(machines@),
            old(backend).reliable(),
            new_id@,
            created_at,
            ts@,
            r,
        ),
{
    let save: bool = match save_current {
        Some(b) => b,
        None => true,
    };
    let dry: bool = match dry_run {
        Some(b) => b,
        None => false,
    };
    let ghost a = backend.state();
    let ghost the_id = new_id@;
    let found = lookup_snapshot(config, backend, toplevel, strain, id);
    let ghost all = choose|all: Seq<InfoView>|
        discovered(backend.state(), config@, toplevel@, all) && #[trigger] picks(
            all,
            strain@,
            id@,
            found,
        );
    let snap = match found {
        Ok(s) => s,
        Err(e) => {
            return Err(e);
        },
    };
    let findings = preflight_restore(machines);
    assert(finding_views(findings@) =~= machine_findings(views(machines@)));
    if !dry {
        match blocking_summary(&findings) {
            Some(summary) => {
                return Err(DaemonError::PreflightBlocked(summary));
            },
            None => {},
        }
    }
    let mut out = Dict::new();
    out.insert_str("restored_id", id);
    out.insert_str("restored_strain", strain);
    out.insert_bool("dry_run", dry);
    out.attach_findings(&findings);
    let ghost head = restore_head(strain@, id@, dry, views(machines@));
    assert(out@ =~= head);
    if dry {
        return Ok(out);
    }
    let r = save_and_restore(
        config,
        backend,
        toplevel,
        &snap,
        save,
        new_id,
        created_at,
        ts,
        out,
    );
    assert(restoration(
        a,
        backend.state(),
        config@,
        toplevel@,
        snap@,
        save,
        the_id,
        created_at,
        ts@,
        head,
        backend.reliable(),
        r,
    ));
    assert(save == saves(save_current));
    proof {
        if r is Ok {
            let m = choose|m: FsState| #[trigger]
                restore_answer(
                    a,
                    m,
                    backend.state(),
                    config@,
                    toplevel@,
                    snap@,
                    save,
                    the_id,
                    created_at,
                    ts@,
                    head,
                    r->Ok_0@,
                );
            assert(restore_answer(
                a,
                m,
                backend.state(),
                config@,
                toplevel@,
                snap@,
                saves(save_current),
                the_id,
                created_at,
                ts@,
                restore_head(strain@, id@, false, views(machines@)),
                r->Ok_0@,
            ));
        } else if lookup(config@.strain, snap@.strain) is Some {
            assert(restore_failed(
                a,
                backend.state(),
                config@,
                toplevel@,
                snap@,
                saves(save_current),
                the_id,
                created_at,
                ts@,
            ));
        }
    }
    r
}

/// Restore a snapshot of a strain, now.
///
/// The ID and the times are the clock's; what is done with them is what
/// [`restore_at`] does.
pub fn restore<B: FileSystemBackend>(
    config: &Config,
    backend: &mut B,
    toplevel: &FsPath,
    strain: &str,
    id: &str,
    save_current: Option<bool>,
    dry_run: Option<bool>,
    machines: &Vec<String>,
) -> (r: DaemonResult<Dict>)
    ensures
        final(backend).reliable() == old(backend).reliable(),
        exists|new_id: Seq<char>, created_at: WallTime, ts: Seq<char>|
            is_clock_id(new_id) && created_at.wf() && is_clock_id(ts)
                && #[trigger] restore_request(
                old(backend).state(),
                final(backend).state(),
                config@,
                toplevel@,
                strain@,
                id@,
                saves(save_current),
                is_dry(dry_run),
                views(machines@),
                old(backend).reliable(),
                new_id,
                created_at,
                ts,
                r,
            ),
{
    let new_id = SnapshotId::now();
    let created_at = local_now();
    let ts = SnapshotId::now();
    restore_at(
        config,
        backend,
        toplevel,
        strain,
        id,
        save_current,
        dry_run,
        machines,
        new_id,
        created_at,
        &ts,
    )
}

/// The error where a strain's retention cannot be asked to be set, if it
/// cannot.
pub open spec fn request_fault(
    s: DaemonState,
    name: Seq<char>,
    tiers: Seq<(Seq<char>, core::result::Result<u32, Seq<char>>)>,
) -> Option<DaemonErrorView> {
    match s.config {
        None => Some(DaemonErrorView::BackendUnavailable("config not loaded"@)),
        Some(c) => if lookup(c@.strain, name) is None {
            Some(DaemonErrorView::NotFound("unknown strain: "@ + name))
        } else {
            match tier_fault(tiers) {
                Some(m) => Some(DaemonErrorView::InvalidArgument(m)),
                None => None,
            }
        },
    }
}

/// Replace the retention of a strain in the configuration file, and take the
/// file over anew.
pub fn set_strain_retention<B: FileSystemBackend>(
    state: &mut DaemonState,
    fs: &mut B,
    name: &str,
    tiers: &Vec<TierArg>,
) -> (r: DaemonResult<()>)
    ensures
        final(fs).reliable() == old(fs).reliable(),
        final(state).toplevel == old(state).toplevel,
        final(state).degraded == old(state).degraded,
        r is Err ==> final(state).config == old(state).config,
        request_fault(*old(state), name@, tier_views(tiers@)) matches Some(e) ==> r is Err
            && r->Err_0@ == e && final(fs).state() == old(fs).state(),
        request_fault(*old(state), name@, tier_views(tiers@)) is None && old(fs).reliable() ==> (
        match retention_fault(old(fs).state(), name@) {
            Some(m) => r is Err && r->Err_0@ == DaemonErrorView::Internal("config edit: "@ + m)
                && final(fs).state() == old(fs).state(),
            None => config_edited(
                old(fs).state(),
                final(fs).state(),
                name@,
                requested(tier_views(tiers@)),
            ) && reloaded(final(fs).state(), *final(state), r),
        }),
        r is Ok ==> config_edited(
            old(fs).state(),
            final(fs).state(),
            name@,
            requested(tier_views(tiers@)),
        ) && reloaded(final(fs).state(), *final(state), r),
{
    match &state.config {
        None => {
            return Err(DaemonError::BackendUnavailable("config not loaded".to_owned()));
        },
        Some(c) => {
            if !c.strain.contains_key(name) {
                return Err(DaemonError::NotFound(cat2("unknown strain: ", name)));
            }
        },
    }
    let retain = match parse_retain(tiers) {
        Ok(t) => t,
        Err(e) => {
            return Err(e);
        },
    };
    match config_edit::set_strain_retention(fs, name, &retain) {
        Ok(_) => {},
        Err(m) => {
            return Err(DaemonError::Internal(cat2("config edit: ", m.as_str())));
        },
    }
    match Config::load_default(fs) {
        Ok(c) => {
            state.reload_config(c);
            Ok(())
        },
        Err(e) => Err(DaemonError::Internal(cat2("reload config: ", e.message().as_str()))),
    }
}

/// Whether `r` is what taking over the configuration file anew gives: its
/// configuration is the daemon's, or the error says why it is refused.
pub open spec fn reloaded(st: FsState, s: DaemonState, r: DaemonResult<()>) -> bool {
    let text = st.files[path_of(DEFAULT_CONFIG_PATH@)];
    if toml_document(text) is Ok && (decode_config(toml_document(text)->Ok_0) matches Some(v)
        && config_fault(v) is None) {
        r is Ok && (s.config matches Some(c) && decode_config(toml_document(text)->Ok_0) == Some(
            c@,
        ))
    } else {
        r is Err && exists|e: ErrorView| #[trigger]
            refuses(text, e) && r->Err_0@ == DaemonErrorView::Internal(
                "reload config: "@ + e.text(),
            )
    }
}

/// What the daemon tells of itself.
pub open spec fn info_dict(
    version: Seq<char>,
    s: DaemonState,
) -> Seq<(Seq<char>, WireView)> {
    seq![
        ("version"@, WireView::Text(version)),
        ("backend"@, WireView::Text("btrfs"@)),
        ("toplevel_mounted"@, WireView::Flag(s.toplevel is Some)),
    ] + (match s.toplevel {
        Some(p) => seq![("toplevel_path"@, WireView::Text(p@))],
        None => Seq::empty(),
    }) + (match s.config {
        Some(c) => seq![("device_uuid"@, WireView::Text(c@.sys.device_uuid))],
        None => Seq::empty(),
    }) + (match s.degraded {
        Some(d) => seq![("degraded_reason"@, WireView::Text(degraded_text(d)))],
        None => Seq::empty(),
    })
}

/// What the daemon tells of itself.
pub fn get_daemon_info(version: &str, state: &DaemonState) -> (r: Dict)
    ensures
        r@ == info_dict(version@, *state),
{
    let mut d = Dict::new();
    d.insert_str("version", version);
    d.insert_str("backend", state.backend_name());
    d.insert_bool("toplevel_mounted", state.toplevel.is_some());
    match &state.toplevel {
        Some(p) => {
            d.insert_str("toplevel_path", p.as_str());
        },
        None => {},
    }
    match &state.config {
        Some(c) => {
            d.insert_str("device_uuid", c.sys.rootfs.device_uuid.as_str());
        },
        None => {},
    }
    match &state.degraded {
        Some(x) => {
            d.insert_str("degraded_reason", x.to_text().as_str());
        },
        None => {},
    }
    assert(d@ =~= info_dict(version@, *state));
    d
}

} // verus!
