//! What the daemon answers over the bus, and what it mounts for its users.

use vstd::prelude::*;
use vstd::string::*;

use crate::assoc::{lemma_lookup_at, lemma_lookup_none, lookup};
use crate::check::{FindingView, Severity};
use crate::clock::{rfc3339, WallTime};
use crate::cleanup::tombstones::TombstoneView;
use crate::backend::effects::gone;
use crate::backend::FsState;
use crate::config::{ConfigView, RetainConfig, StrainView};
use crate::daemon::errors::{mapped, DaemonErrorView, DaemonResult};
use crate::daemon::marshal::{
    clamped, finding_dict, is_strain_tuple, marker_dict, retain_dict, snapshot_dict, Dict,
    StrainTuple, WireView,
};
use crate::daemon::service::{
    info_dict, is_dry, latest, law_latest_is_latest, pre_fields, removal, request_fault, requested,
    restore_answer, restore_head, restore_reply, saves, snapshot_dicts, tier_fault,
};
use crate::daemon::snapshot_mount::{
    base_dir, distinct_mounts, idle_keys, is_user_mount, law_recent_mounts_stay, mounted, plans,
    stale_among, touched, ActiveMount, MountPlan,
};
use crate::daemon::state::{DaemonState, DegradedReason};
use crate::daemon::watcher::event_strain;
use crate::error::ErrorView;
use crate::lines::words;
use crate::metadata::{law_sidecar_name_round_trip, sidecar_name, sidecar_parts, TriggerKind};
use crate::path::{path_join, PathView};
use crate::snapshot::id::{id_moment, id_ok, is_token, law_parse_undoes_naming, name_text};
use crate::restore::restored_at;
use crate::snapshot::info::InfoView;
use crate::snapshot::operations::info_paths;
use crate::text::{joined, split_first, views};

verus! {

/// A client can tell from an error that a snapshot or subvolume is not there,
/// that a setting or a strain is wrong, that the filesystem cannot be served,
/// and that it may not ask; all else is internal. The text is always the
/// library's.
pub proof fn law_bus_errors(e: ErrorView)
    ensures
        mapped(e) == DaemonErrorView::NotFound(e.text()) <==> e is SnapshotNotFound || e
            is SubvolumeNotFound,
        mapped(e) == DaemonErrorView::InvalidArgument(e.text()) <==> e is Config,
        mapped(e) == DaemonErrorView::BackendUnavailable(e.text()) <==> e is NotBtrfs || e is Mount,
        mapped(e) == DaemonErrorView::NotAuthorized(e.text()) <==> e is NotRoot,
        mapped(e) == DaemonErrorView::Internal(e.text()) <==> !(e is SnapshotNotFound || e
            is SubvolumeNotFound || e is Config || e is NotBtrfs || e is Mount || e is NotRoot),
{
}

proof fn lemma_wire_keys()
    ensures
        "id"@.len() == 2,
        "strain"@.len() == 6,
        "created"@.len() == 7,
        "trigger"@.len() == 7,
        "message"@.len() == 7,
        "is_live_anchor"@.len() == 14,
        "created"@[0] == 'c',
        "trigger"@[0] == 't',
        "message"@[0] == 'm',
        "last"@.len() == 4,
        "hourly"@.len() == 6,
        "daily"@.len() == 5,
        "weekly"@.len() == 6,
        "monthly"@.len() == 7,
        "yearly"@.len() == 6,
        "hourly"@[0] == 'h',
        "weekly"@[0] == 'w',
        "yearly"@[0] == 'y',
{
    reveal_strlit("id");
    reveal_strlit("strain");
    reveal_strlit("created");
    reveal_strlit("trigger");
    reveal_strlit("message");
    reveal_strlit("is_live_anchor");
    reveal_strlit("last");
    reveal_strlit("hourly");
    reveal_strlit("daily");
    reveal_strlit("weekly");
    reveal_strlit("monthly");
    reveal_strlit("yearly");
}

/// What is told of a snapshot: its ID and strain; what triggered it, or that it
/// is unknown; its notes, joined, if it has any; whether the live system came
/// from it; and when it was made, by its record where it has a valid time, else
/// by its ID.
pub proof fn law_snapshot_on_the_bus(s: InfoView, live: Option<(Seq<char>, Seq<char>)>)
    ensures
        ({
            let d = snapshot_dict(s, live);
            &&& lookup(d, "id"@) == Some(WireView::Text(s.id))
            &&& lookup(d, "strain"@) == Some(WireView::Text(s.strain))
            &&& lookup(d, "is_live_anchor"@) == Some(
                WireView::Flag(live matches Some(x) && x.0 == s.strain && x.1 == s.id),
            )
            &&& lookup(d, "trigger"@) == Some(
                WireView::Text(
                    match s.metadata {
                        None => "unknown"@,
                        Some(m) => match m.trigger {
                            TriggerKind::Manual => "manual"@,
                            TriggerKind::Pacman => "pacman"@,
                            TriggerKind::SystemdBoot => "systemd-boot"@,
                            TriggerKind::SystemdPeriodic => "systemd-periodic"@,
                            TriggerKind::Restore => "restore"@,
                            TriggerKind::Unknown => "unknown"@,
                        },
                    },
                ),
            )
            &&& lookup(d, "message"@) == (match s.metadata {
                Some(m) => if m.message.len() > 0 {
                    Some(WireView::Text(joined(m.message, ", "@)))
                } else {
                    None
                },
                None => None,
            })
            &&& s.metadata matches Some(m) ==> (m.created_at.wf() ==> lookup(d, "created"@) == Some(
                WireView::Text(rfc3339(m.created_at, false)),
            ))
            &&& s.metadata is None ==> lookup(d, "created"@) == (match id_moment(s.id) {
                Some(m) => Some(
                    WireView::Text(
                        rfc3339(WallTime { secs: m.secs, nanos: m.nanos, offset: 0 }, false),
                    ),
                ),
                None => None,
            })
        }),
{
    let d = snapshot_dict(s, live);
    lemma_wire_keys();
    let made = crate::daemon::marshal::created_text(s) is Some;
    let noted = s.metadata is Some && s.metadata->0.message.len() > 0;
    let t = if made {
        3int
    } else {
        2int
    };
    lemma_lookup_at(d, "id"@, 0);
    lemma_lookup_at(d, "strain"@, 1);
    if made {
        lemma_lookup_at(d, "created"@, 2);
    } else {
        lemma_lookup_none(d, "created"@);
    }
    lemma_lookup_at(d, "trigger"@, t);
    if noted {
        lemma_lookup_at(d, "message"@, t + 1);
    } else {
        lemma_lookup_none(d, "message"@);
    }
    lemma_lookup_at(d, "is_live_anchor"@, d.len() - 1);
    if live is Some {
        let x = live->0;
        assert(live == Some((s.strain, s.id)) <==> x.0 == s.strain && x.1 == s.id);
    }
}

/// A policy is told tier by tier; a count that does not fit 32 bits is told as
/// the largest that does.
pub proof fn law_policy_on_the_bus(r: RetainConfig)
    ensures
        lookup(retain_dict(r), "last"@) == Some(WireView::Count(clamped(r.last))),
        lookup(retain_dict(r), "hourly"@) == Some(WireView::Count(clamped(r.hourly))),
        lookup(retain_dict(r), "daily"@) == Some(WireView::Count(clamped(r.daily))),
        lookup(retain_dict(r), "weekly"@) == Some(WireView::Count(clamped(r.weekly))),
        lookup(retain_dict(r), "monthly"@) == Some(WireView::Count(clamped(r.monthly))),
        lookup(retain_dict(r), "yearly"@) == Some(WireView::Count(clamped(r.yearly))),
        forall|n: usize| n <= 4_294_967_295 ==> #[trigger] clamped(n) == n,
        forall|n: usize| n > 4_294_967_295 ==> #[trigger] clamped(n) == 4_294_967_295u32,
{
    let d = retain_dict(r);
    lemma_wire_keys();
    lemma_lookup_at(d, "last"@, 0);
    lemma_lookup_at(d, "hourly"@, 1);
    lemma_lookup_at(d, "daily"@, 2);
    lemma_lookup_at(d, "weekly"@, 3);
    lemma_lookup_at(d, "monthly"@, 4);
    lemma_lookup_at(d, "yearly"@, 5);
}

/// Whether `n` is the count asked for under `key`: the one given, or 0.
pub open spec fn asked(
    t: Seq<(Seq<char>, core::result::Result<u32, Seq<char>>)>,
    key: Seq<char>,
    n: usize,
) -> bool {
    match lookup(t, key) {
        None => n == 0,
        Some(v) => v is Ok && v->Ok_0 == n,
    }
}

/// A policy asked for is read tier by tier: what is given under a tier's name,
/// or 0. It is refused exactly if something given under one is no count.
pub proof fn law_policy_asked_for(t: Seq<(Seq<char>, core::result::Result<u32, Seq<char>>)>)
    ensures
        tier_fault(t) is None ==> asked(t, "last"@, requested(t).last) && asked(
            t,
            "hourly"@,
            requested(t).hourly,
        ) && asked(t, "daily"@, requested(t).daily) && asked(t, "weekly"@, requested(t).weekly)
            && asked(t, "monthly"@, requested(t).monthly) && asked(
            t,
            "yearly"@,
            requested(t).yearly,
        ),
        tier_fault(t) is Some <==> (lookup(t, "last"@) matches Some(v) && v is Err) || (lookup(
            t,
            "hourly"@,
        ) matches Some(v) && v is Err) || (lookup(t, "daily"@) matches Some(v) && v is Err) || (
        lookup(t, "weekly"@) matches Some(v) && v is Err) || (lookup(t, "monthly"@) matches Some(v)
            && v is Err) || (lookup(t, "yearly"@) matches Some(v) && v is Err),
{
}

/// What is told of a marker is its name, the subvolume it was and its ID; of a
/// finding its severity, its check, its message, and its hint if it has one.
pub proof fn law_markers_and_findings(t: TombstoneView, f: FindingView)
    ensures
        marker_dict(t).contains(("name"@, WireView::Text(t.name))),
        marker_dict(t).contains(("base_subvol"@, WireView::Text(t.base_subvol))),
        marker_dict(t).contains(("id"@, WireView::Text(t.id))),
        finding_dict(f).contains(
            (
                "severity"@,
                match f.severity {
                    Severity::Info => "INFO"@,
                    Severity::Warning => "WARN"@,
                    Severity::Error => "ERROR"@,
                },
            ),
        ),
        finding_dict(f).contains(("check"@, f.check)),
        finding_dict(f).contains(("message"@, f.message)),
        f.hint matches Some(h) ==> finding_dict(f).contains(("hint"@, h)),
        f.hint is None ==> finding_dict(f).len() == 3,
{
    let d = marker_dict(t);
    assert(d[0] == ("name"@, WireView::Text(t.name)));
    assert(d[1] == ("base_subvol"@, WireView::Text(t.base_subvol)));
    assert(d[2] == ("id"@, WireView::Text(t.id)));
    let g = finding_dict(f);
    assert(g[0].0 == "severity"@);
    assert(g[0] == ("severity"@, crate::check::severity_label(f.severity)));
    assert(g[1] == ("check"@, f.check));
    assert(g[2] == ("message"@, f.message));
    if f.hint is Some {
        assert(g[3] == ("hint"@, f.hint->0));
    }
}

/// The strain with the latest snapshot: no snapshot was made after it, by the
/// time of its record, or of its ID where it has no record.
pub proof fn law_latest_snapshot(v: Seq<InfoView>, i: int)
    requires
        0 <= i < v.len(),
    ensures
        latest(v) is Some,
        v.contains(latest(v)->0),
        ({
            let (a, b) = (latest(v)->0, v[i]);
            &&& a.metadata matches Some(x) ==> (b.metadata matches Some(y) ==> !(
            x.created_at.secs < y.created_at.secs || (x.created_at.secs == y.created_at.secs
                && x.created_at.nanos < y.created_at.nanos)))
            &&& a.metadata is None && b.metadata is None ==> (id_moment(b.id) matches Some(y) ==> (
            id_moment(a.id) matches Some(x) && !(x.secs < y.secs || (x.secs == y.secs && x.nanos
                < y.nanos))))
            &&& a.metadata matches Some(x) ==> (b.metadata is None ==> (id_moment(
                b.id,
            ) matches Some(y) ==> !(x.created_at.secs < y.secs || (x.created_at.secs == y.secs
                && x.created_at.nanos < y.nanos))))
        }),
{
    law_latest_is_latest(v);
    assert(!crate::daemon::service::made_before(latest(v)->0, v[i]));
}

/// A listing over the bus, narrowed to a strain, tells of exactly the snapshots
/// of that strain, and else of all.
pub proof fn law_listing_on_the_bus(
    v: Seq<InfoView>,
    strain: Option<Seq<char>>,
    live: Option<(Seq<char>, Seq<char>)>,
    d: Seq<(Seq<char>, WireView)>,
)
    ensures
        snapshot_dicts(v, strain, live).contains(d) <==> exists|i: int|
            0 <= i < v.len() && (strain matches Some(x) ==> (#[trigger] v[i]).strain == x) && d
                == snapshot_dict(v[i], live),
        strain is None ==> snapshot_dicts(v, strain, live).len() == v.len(),
    decreases v.len(),
{
    if v.len() > 0 {
        let u = v.drop_last();
        law_listing_on_the_bus(u, strain, live, d);
        let (m, first) = (snapshot_dicts(v, strain, live), snapshot_dicts(u, strain, live));
        if first.contains(d) {
            let k = choose|k: int| 0 <= k < first.len() && first[k] == d;
            assert(m[k] == d);
            let i = choose|i: int|
                0 <= i < u.len() && (strain matches Some(x) ==> (#[trigger] u[i]).strain == x) && d
                    == snapshot_dict(u[i], live);
            assert(v[i] == u[i]);
        } else if m.contains(d) {
            let k = choose|k: int| 0 <= k < m.len() && m[k] == d;
            if k < first.len() {
                assert(first[k] == d);
            }
            assert(v[v.len() - 1] == v.last());
        }
        if exists|i: int|
            0 <= i < v.len() && (strain matches Some(x) ==> (#[trigger] v[i]).strain == x) && d
                == snapshot_dict(v[i], live) {
            let i = choose|i: int|
                0 <= i < v.len() && (strain matches Some(x) ==> (#[trigger] v[i]).strain == x) && d
                    == snapshot_dict(v[i], live);
            if i < u.len() {
                assert(u[i] == v[i]);
            } else {
                assert(m[first.len() as int] == d);
            }
        }
    }
}

/// Over the bus the state before a restore is saved unless that is declined,
/// and a restore is for real unless a dry run is asked for.
pub proof fn law_restore_defaults(o: Option<bool>)
    ensures
        saves(None) && saves(Some(true)) && !saves(Some(false)),
        !is_dry(None) && is_dry(Some(true)) && !is_dry(Some(false)),
{
}

/// An event on an entry is of the strain in the entry's name, be it that of a
/// sidecar or of a snapshot subvolume.
pub proof fn law_event_strain(subvol: Seq<char>, strain: Seq<char>, id: Seq<char>)
    requires
        is_token(strain),
        id_ok(id),
        subvol.len() > 0,
    ensures
        event_strain(Some(strain + "-"@ + id + ".meta.toml"@)) == Some(strain),
        event_strain(Some(subvol + "-"@ + strain + "-"@ + id)) == Some(strain),
        event_strain(None) is None,
{
    law_sidecar_name_round_trip(sidecar_name(strain, id), strain, id);
    assert(sidecar_name(strain, id) == strain + "-"@ + id + ".meta.toml"@);
    let n = name_text(subvol, strain, id);
    assert(n == subvol + "-"@ + strain + "-"@ + id);
    law_parse_undoes_naming(n, subvol, strain, id);
    if sidecar_parts(n) is Some {
        let (s, i) = sidecar_parts(n)->Some_0;
        law_sidecar_name_round_trip(n, s, i);
        crate::snapshot::id::lemma_id_last(id);
        reveal_strlit(".meta.toml");
        assert(n.last() == id.last());
        assert(sidecar_name(s, i).last() == 'l');
    }
}

/// A mount is given up exactly if nobody asked for it for half an hour.
pub proof fn law_idle_mounts(v: Seq<ActiveMount>, now: u64, i: int)
    requires
        distinct_mounts(v),
        0 <= i < v.len(),
    ensures
        idle_keys(v, now).contains((v[i].strain@, v[i].id@)) <==> now - v[i].last_active
            >= 30 * 60 * 1_000,
{
    law_recent_mounts_stay(v, now, i);
}

/// A snapshot is mounted for a user below the user's own runtime directory, in
/// a place for the snapshot alone: each of its subvolumes, from the snapshot
/// directory of the configured device, under its own name.
pub proof fn law_mount_plan(p: MountPlan, c: ConfigView, snap: InfoView, uid: u32, i: int)
    requires
        plans(p, c, snap, uid),
        0 <= i < snap.subvolumes.len(),
    ensures
        p.steps@.len() == snap.subvolumes.len(),
        p.device@ == "/dev/disk/by-uuid/"@ + c.sys.device_uuid,
        p.base_dir@ == "/run/user/"@ + crate::text::dec(uid as nat) + "/revenant/mounts/"@
            + snap.strain + "-"@ + snap.id,
        p.steps@[i].name@ == snap.subvolumes[i],
        p.steps@[i].option@ == "subvol="@ + c.sys.snapshot_subvol + "/"@ + snap.subvolumes[i]
            + "-"@ + snap.strain + "-"@ + snap.id,
        snap.subvolumes[i].len() == 0 || snap.subvolumes[i][0] != '/' ==> p.steps@[i].path@
            == p.base_dir@ + "/"@ + snap.subvolumes[i],
{
    reveal_strlit("/run/user/");
    reveal_strlit("/run/user");
    reveal_strlit("/");
    reveal_strlit("/revenant/mounts/");
    reveal_strlit("revenant/mounts");
    assert("/run/user/"@ =~= "/run/user"@ + "/"@);
    assert("/revenant/mounts/"@ =~= "/"@ + "revenant/mounts"@ + "/"@);
    let d = crate::text::dec(uid as nat);
    assert(p.base_dir@ =~= "/run/user/"@ + d + "/revenant/mounts/"@ + snap.strain + "-"@
        + snap.id);
    assert(crate::daemon::snapshot_mount::is_step(
        p.steps@[i],
        c,
        snap,
        p.base_dir@,
        snap.subvolumes[i],
    ));
    assert(p.steps@[i].option@ =~= "subvol="@ + c.sys.snapshot_subvol + "/"@ + snap.subvolumes[i]
        + "-"@ + snap.strain + "-"@ + snap.id);
}

/// The mounts left behind by an earlier run are those in the table whose mount
/// point, the fifth field, is a place where snapshots are mounted for users.
pub proof fn law_stale_mounts(lines: Seq<Seq<char>>, p: Seq<char>)
    ensures
        stale_among(lines).contains(p) <==> is_user_mount(p) && exists|i: int|
            0 <= i < lines.len() && words(#[trigger] lines[i]).len() > 4 && words(lines[i])[4] == p,
    decreases lines.len(),
{
    if lines.len() > 0 {
        let u = lines.drop_last();
        law_stale_mounts(u, p);
        let (m, first) = (stale_among(lines), stale_among(u));
        if first.contains(p) {
            let k = choose|k: int| 0 <= k < first.len() && first[k] == p;
            assert(m[k] == p);
            let i = choose|i: int|
                0 <= i < u.len() && words(#[trigger] u[i]).len() > 4 && words(u[i])[4] == p;
            assert(lines[i] == u[i]);
        } else if m.contains(p) {
            let k = choose|k: int| 0 <= k < m.len() && m[k] == p;
            if k < first.len() {
                assert(first[k] == p);
            }
            assert(lines[lines.len() - 1] == lines.last());
        }
        if is_user_mount(p) && exists|i: int|
            0 <= i < lines.len() && words(#[trigger] lines[i]).len() > 4 && words(lines[i])[4]
                == p {
            let i = choose|i: int|
                0 <= i < lines.len() && words(#[trigger] lines[i]).len() > 4 && words(lines[i])[4]
                    == p;
            if i < u.len() {
                assert(u[i] == lines[i]);
            } else {
                assert(m[first.len() as int] == p);
            }
        }
    }
}

/// Where snapshots are mounted for users is known as such.
pub proof fn law_own_mounts_are_known(uid: u32, strain: Seq<char>, id: Seq<char>, rest: Seq<char>)
    ensures
        is_user_mount(base_dir(uid, strain, id) + rest),
{
    let p = base_dir(uid, strain, id) + rest;
    let d = crate::text::dec(uid as nat);
    reveal_strlit("/run/user/");
    reveal_strlit("/run/user");
    reveal_strlit("/");
    reveal_strlit("revenant/mounts/");
    reveal_strlit("revenant/mounts");
    assert("/run/user/"@ =~= "/run/user"@ + "/"@);
    let tail = "revenant/mounts/"@ + strain + "-"@ + id + rest;
    assert("revenant/mounts/"@ =~= "revenant/mounts"@ + "/"@);
    let after = d + seq!['/'] + tail;
    assert("/"@ =~= seq!['/']);
    assert(p =~= "/run/user/"@ + after);
    assert("/run/user/"@ =~= p.subrange(0, 10));
    assert(p.subrange(10, p.len() as int) =~= after);
    lemma_dec_plain(uid as nat);
    lemma_split_at(d, '/', tail);
    assert("revenant/mounts/"@ =~= tail.subrange(0, 16));
}

proof fn lemma_dec_plain(n: nat)
    ensures
        forall|i: int| 0 <= i < crate::text::dec(n).len() ==> #[trigger] crate::text::dec(n)[i]
            != '/',
    decreases n,
{
    let s = crate::text::dec(n);
    if n >= 10 {
        lemma_dec_plain(n / 10);
        let t = crate::text::dec(n / 10);
        assert forall|i: int| 0 <= i < s.len() implies #[trigger] s[i] != '/' by {
            if i < t.len() {
                assert(s[i] == t[i]);
            } else {
                assert(s[i] == crate::text::digit((n % 10) as int));
            }
        }
    } else {
        assert(s == seq![crate::text::digit(n as int)]);
    }
}

proof fn lemma_split_at(a: Seq<char>, c: char, b: Seq<char>)
    requires
        forall|i: int| 0 <= i < a.len() ==> #[trigger] a[i] != c,
    ensures
        split_first(a + seq![c] + b, c) == Some((a, b)),
    decreases a.len(),
{
    let s = a + seq![c] + b;
    if a.len() > 0 {
        let t = a.skip(1);
        assert(s.skip(1) =~= t + seq![c] + b);
        assert forall|i: int| 0 <= i < t.len() implies #[trigger] t[i] != c by {
            assert(t[i] == a[i + 1]);
        }
        lemma_split_at(t, c, b);
        assert(seq![a[0]] + t =~= a);
    } else {
        assert(s.skip(1) =~= b);
        assert(a =~= Seq::empty());
    }
}

/// Asking for a mount that is there makes it active again; the other mounts stay
/// as they are.
pub proof fn law_touched_mounts(
    v: Seq<ActiveMount>,
    strain: Seq<char>,
    id: Seq<char>,
    now: u64,
    i: int,
)
    requires
        0 <= i < v.len(),
    ensures
        touched(v, strain, id, now).len() == v.len(),
        v[i].strain@ == strain && v[i].id@ == id ==> touched(v, strain, id, now)[i].last_active
            == now && touched(v, strain, id, now)[i].subvols == v[i].subvols,
        !(v[i].strain@ == strain && v[i].id@ == id) ==> touched(v, strain, id, now)[i] == v[i],
{
}

/// What is told of a strain: its name, its subvolumes, whether it syncs EFI,
/// its policy, and the name to show, which is empty where none is set.
pub proof fn law_strain_on_the_bus(t: StrainTuple, name: Seq<char>, s: StrainView)
    requires
        is_strain_tuple(t, name, s),
    ensures
        t.name@ == name,
        views(t.subvolumes@) == s.subvolumes,
        t.efi == s.efi,
        lookup(t.retain@, "daily"@) == Some(WireView::Count(clamped(s.retain.daily))),
        lookup(t.retain@, "last"@) == Some(WireView::Count(clamped(s.retain.last))),
        s.display_name matches Some(d) ==> t.display_name@ == d,
        s.display_name is None ==> t.display_name@.len() == 0,
{
    law_policy_on_the_bus(s.retain);
}

/// A restore over the bus changes nothing where the snapshot is not there, where
/// it is a dry run, and where a machine is running; a dry run tells what was
/// found and is no failure.
pub proof fn law_restore_over_the_bus(
    a: FsState,
    b: FsState,
    c: ConfigView,
    toplevel: PathView,
    m: Seq<InfoView>,
    strain: Seq<char>,
    id: Seq<char>,
    save: bool,
    dry: bool,
    machines: Seq<Seq<char>>,
    new_id: Seq<char>,
    created_at: WallTime,
    ts: Seq<char>,
    r: DaemonResult<Dict>,
)
    requires
        restore_reply(
            a,
            b,
            c,
            toplevel,
            m,
            strain,
            id,
            save,
            dry,
            machines,
            new_id,
            created_at,
            ts,
            r,
        ),
    ensures
        m.len() != 1 ==> r is Err && b == a,
        m.len() == 0 ==> (r matches Err(e) && e@ is NotFound),
        m.len() == 1 && dry ==> r is Ok && b == a,
        m.len() == 1 && !dry && machines.len() > 0 ==> (r matches Err(e) && e@ is PreflightBlocked)
            && b == a,
        m.len() == 1 && !dry && machines.len() == 0 && r is Ok ==> exists|k: FsState| #[trigger]
            restored_at(k, b, c, toplevel, m[0], ts) && (!save ==> k == a),
{
    crate::laws::commands::law_machines_block(machines);
    if m.len() == 1 && !dry && machines.len() == 0 && r is Ok {
        let head = restore_head(strain, id, false, machines);
        let k = choose|k: FsState| #[trigger]
            restore_answer(
                a,
                k,
                b,
                c,
                toplevel,
                m[0],
                save,
                new_id,
                created_at,
                ts,
                head,
                r->Ok_0@,
            );
        assert(restored_at(k, b, c, toplevel, m[0], ts));
    }
}

/// A deletion over the bus changes nothing where the snapshot is not there or is
/// protected.
pub proof fn law_deletion_over_the_bus(
    a: FsState,
    b: FsState,
    c: ConfigView,
    toplevel: PathView,
    m: Seq<InfoView>,
    id: Seq<char>,
    r: DaemonResult<()>,
)
    requires
        removal(a, b, c, toplevel, m, id, r),
    ensures
        m.len() != 1 ==> r is Err && b == a,
        m.len() == 0 ==> (r matches Err(e) && e@ is NotFound),
        m.len() == 1 && (m[0].metadata matches Some(x) && x.protected) ==> r is Err && b == a,
        m.len() == 1 && !(m[0].metadata matches Some(x) && x.protected) && r is Ok ==> forall|
            i: int,
        |
            0 <= i < m[0].subvolumes.len() ==> !b.subvols.contains_key(
                path_join(
                    path_join(toplevel, c.sys.snapshot_subvol),
                    #[trigger] m[0].subvolumes[i] + "-"@ + m[0].strain + "-"@ + m[0].id,
                ),
            ),
{
    if m.len() == 1 && !(m[0].metadata matches Some(x) && x.protected) && r is Ok {
        let paths = info_paths(c, toplevel, m[0]);
        assert forall|i: int| 0 <= i < m[0].subvolumes.len() implies !b.subvols.contains_key(
            path_join(
                path_join(toplevel, c.sys.snapshot_subvol),
                #[trigger] m[0].subvolumes[i] + "-"@ + m[0].strain + "-"@ + m[0].id,
            ),
        ) by {
            reveal(gone);
            let p = paths[i];
            assert(p.take(p.len() as int) =~= p);
            if b.subvols.contains_key(p) {
                assert(a.subvols.contains_key(paths[i]));
                assert(gone(a, paths, p));
            }
        }
    }
}

/// A policy cannot be set while no configuration is loaded, for a strain that is
/// not there, or with a tier that is no count; the client can tell these apart.
pub proof fn law_refused_policies(
    s: DaemonState,
    name: Seq<char>,
    tiers: Seq<(Seq<char>, core::result::Result<u32, Seq<char>>)>,
)
    ensures
        s.config is None <==> (request_fault(s, name, tiers) matches Some(e) && e
            is BackendUnavailable),
        (s.config matches Some(c) && lookup(c@.strain, name) is None) <==> (request_fault(
            s,
            name,
            tiers,
        ) matches Some(e) && e is NotFound),
        request_fault(s, name, tiers) is None <==> (s.config matches Some(c) && lookup(
            c@.strain,
            name,
        ) is Some) && tier_fault(tiers) is None,
{
}

/// What the daemon tells of itself says whether the top level is mounted, and
/// why it cannot serve, if it cannot.
pub proof fn law_daemon_info(version: Seq<char>, s: DaemonState)
    ensures
        info_dict(version, s).contains(("version"@, WireView::Text(version))),
        info_dict(version, s).contains(("toplevel_mounted"@, WireView::Flag(s.toplevel is Some))),
        s.toplevel matches Some(p) ==> info_dict(version, s).contains(
            ("toplevel_path"@, WireView::Text(p@)),
        ),
        s.config matches Some(c) ==> info_dict(version, s).contains(
            ("device_uuid"@, WireView::Text(c@.sys.device_uuid)),
        ),
        s.degraded matches Some(d) ==> info_dict(version, s).contains(
            (
                "degraded_reason"@,
                WireView::Text(
                    match d {
                        DegradedReason::ConfigLoad(m) => "config file could not be loaded: "@ + m@,
                        DegradedReason::Mount(m) => "toplevel mount failed: "@ + m@,
                    },
                ),
            ),
        ),
{
    let d = info_dict(version, s);
    assert(d[0] == ("version"@, WireView::Text(version)));
    assert(d[2] == ("toplevel_mounted"@, WireView::Flag(s.toplevel is Some)));
    let n = if s.toplevel is Some {
        4int
    } else {
        3int
    };
    let k = if s.config is Some {
        n + 1
    } else {
        n
    };
    if s.toplevel is Some {
        assert(d[3] == ("toplevel_path"@, WireView::Text(s.toplevel->0@)));
    }
    if s.config is Some {
        assert(d[n] == ("device_uuid"@, WireView::Text(s.config->0@.sys.device_uuid)));
    }
    if s.degraded is Some {
        assert(d[k] == (
            "degraded_reason"@,
            WireView::Text(crate::daemon::state::degraded_text(s.degraded->0)),
        ));
    }
}

/// A restore over the bus tells the snapshot that was restored and, exactly if
/// the state was saved first, the snapshot that holds it.
pub proof fn law_restore_told(
    strain: Seq<char>,
    id: Seq<char>,
    dry: bool,
    machines: Seq<Seq<char>>,
    pre: Option<InfoView>,
)
    ensures
        ({
            let d = restore_head(strain, id, dry, machines) + pre_fields(pre);
            &&& d.contains(("restored_id"@, WireView::Text(id)))
            &&& d.contains(("restored_strain"@, WireView::Text(strain)))
            &&& d.contains(("dry_run"@, WireView::Flag(dry)))
            &&& pre matches Some(p) ==> d.contains(("pre_restore_id"@, WireView::Text(p.id)))
                && d.contains(("pre_restore_strain"@, WireView::Text(p.strain)))
            &&& pre is None ==> d.len() == 4
        }),
{
    let d = restore_head(strain, id, dry, machines) + pre_fields(pre);
    assert(d[0] == ("restored_id"@, WireView::Text(id)));
    assert(d[1] == ("restored_strain"@, WireView::Text(strain)));
    assert(d[2] == ("dry_run"@, WireView::Flag(dry)));
    if pre is Some {
        assert(d[4] == ("pre_restore_id"@, WireView::Text(pre->0.id)));
        assert(d[5] == ("pre_restore_strain"@, WireView::Text(pre->0.strain)));
    }
}

/// The directories that a mount for a user makes are the user's, from the top
/// down to the one for the snapshot.
pub proof fn law_mount_directories(p: MountPlan, c: ConfigView, snap: InfoView, uid: u32)
    requires
        plans(p, c, snap, uid),
    ensures
        views(p.owned@).len() == 3,
        views(p.owned@)[0] == "/run/user"@ + "/"@ + crate::text::dec(uid as nat) + "/revenant"@,
        views(p.owned@)[1] == "/run/user"@ + "/"@ + crate::text::dec(uid as nat)
            + "/revenant/mounts"@,
        views(p.owned@)[2] == p.base_dir@,
{
}

/// A mount is known by its strain and its ID.
pub proof fn law_known_mounts(v: Seq<ActiveMount>, strain: Seq<char>, id: Seq<char>)
    ensures
        mounted(v, strain, id) <==> exists|i: int|
            0 <= i < v.len() && (#[trigger] v[i]).strain@ == strain && v[i].id@ == id,
{
    if mounted(v, strain, id) {
        let i = choose|i: int|
            0 <= i < v.len() && #[trigger] crate::daemon::snapshot_mount::is_of(v[i], strain, id);
        assert(v[i].strain@ == strain && v[i].id@ == id);
    }
    if exists|i: int| 0 <= i < v.len() && (#[trigger] v[i]).strain@ == strain && v[i].id@ == id {
        let i = choose|i: int|
            0 <= i < v.len() && (#[trigger] v[i]).strain@ == strain && v[i].id@ == id;
        assert(crate::daemon::snapshot_mount::is_of(v[i], strain, id));
    }
}

/// A mount is taken for one of a snapshot for a user exactly if it lies in a
/// user's `revenant/mounts` under `/run/user`.
pub proof fn law_only_user_mounts(p: Seq<char>)
    ensures
        is_user_mount(p) <==> exists|user: Seq<char>, rest: Seq<char>|
            p == #[trigger] ("/run/user/"@ + user + "/revenant/mounts/"@ + rest) && forall|i: int|
                0 <= i < user.len() ==> #[trigger] user[i] != '/',
{
    reveal_strlit("/run/user/");
    reveal_strlit("revenant/mounts/");
    reveal_strlit("/revenant/mounts/");
    assert("/revenant/mounts/"@ =~= seq!['/'] + "revenant/mounts/"@);
    let head = "/run/user/"@;
    if is_user_mount(p) {
        let after = p.subrange(head.len() as int, p.len() as int);
        assert(p =~= head + after);
        crate::laws::disk::lemma_first_part(after, '/');
        let (user, tail) = split_first(after, '/')->0;
        let mid = "revenant/mounts/"@;
        let rest = tail.skip(mid.len() as int);
        assert(tail =~= mid + rest);
        assert(p =~= head + user + "/revenant/mounts/"@ + rest);
    }
    if exists|user: Seq<char>, rest: Seq<char>|
        p == #[trigger] (head + user + "/revenant/mounts/"@ + rest) && forall|i: int|
            0 <= i < user.len() ==> #[trigger] user[i] != '/' {
        let (user, rest) = choose|user: Seq<char>, rest: Seq<char>|
            p == #[trigger] (head + user + "/revenant/mounts/"@ + rest) && forall|i: int|
                0 <= i < user.len() ==> #[trigger] user[i] != '/';
        let tail = "revenant/mounts/"@ + rest;
        let after = user + seq!['/'] + tail;
        assert(p =~= head + after);
        assert(head =~= p.subrange(0, head.len() as int));
        assert(p.subrange(head.len() as int, p.len() as int) =~= after);
        let k = user.len() as int;
        assert forall|j: int| 0 <= j < k implies after[j] != '/' by {
            assert(after[j] == user[j]);
        }
        crate::text::lemma_split_first_at(after, '/', k);
        assert(after.subrange(k + 1, after.len() as int) =~= tail);
        assert("revenant/mounts/"@ =~= tail.subrange(0, "revenant/mounts/"@.len() as int));
    }
}

} // verus!
