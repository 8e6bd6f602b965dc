//! What DELETE markers are, when they age out, and what a cleanup leaves of
//! them.

use vstd::prelude::*;
use vstd::string::*;

use crate::backend::effects::gone;
use crate::backend::FsState;
use crate::cleanup::policy::{aged_out_purged, all_markers_purged, plans_tombstones, PlanTombstone};
use crate::cleanup::recovery::{
    base_list, marker_at, marker_of, strain_bases, with_base, with_bases,
};
use crate::cleanup::tombstones::{
    child_paths, expired_names, is_marker, is_tombstone, lemma_ascending_distinct,
    lists_tombstones, only_markers_purged, tombstone_names, tombstone_of, wanted_names,
    TombstoneView,
};
use crate::clock::Moment;
use crate::config::{ConfigView, StrainView, DELETE_STRAIN};
use crate::path::{file_name_of, within, PathView};
use crate::snapshot::id::{id_moment, id_ok};

verus! {

proof fn lemma_with_bases(list: Seq<Seq<char>>, more: Seq<Seq<char>>, n: nat, b: Seq<char>)
    requires
        n <= more.len(),
    ensures
        with_bases(list, more, n).contains(b) <==> list.contains(b) || more.take(
            n as int,
        ).contains(b),
        list.no_duplicates() ==> with_bases(list, more, n).no_duplicates(),
    decreases n,
{
    if n > 0 {
        lemma_with_bases(list, more, (n - 1) as nat, b);
        lemma_with_bases(list, more, (n - 1) as nat, more[n - 1]);
        let rest = with_bases(list, more, (n - 1) as nat);
        lemma_with_base(rest, more[n - 1], b);
        let (s, t) = (more.take(n as int), more.take(n - 1));
        if s.contains(b) {
            let k = choose|k: int| 0 <= k < s.len() && s[k] == b;
            if k < n - 1 {
                assert(t[k] == b);
            }
        }
        if t.contains(b) {
            let k = choose|k: int| 0 <= k < t.len() && t[k] == b;
            assert(s[k] == b);
        }
        assert(s[n - 1] == more[n - 1]);
    }
}

proof fn lemma_with_base(list: Seq<Seq<char>>, x: Seq<char>, b: Seq<char>)
    ensures
        with_base(list, x).contains(b) <==> list.contains(b) || b == x,
        list.no_duplicates() ==> with_base(list, x).no_duplicates(),
{
    let w = with_base(list, x);
    if !list.contains(x) {
        assert(w[list.len() as int] == x);
        if list.contains(b) {
            let k = choose|k: int| 0 <= k < list.len() && list[k] == b;
            assert(w[k] == b);
        }
        if w.contains(b) && b != x {
            let k = choose|k: int| 0 <= k < w.len() && w[k] == b;
            assert(list[k] == b);
        }
    }
}

/// The subvolumes of the strains are those that some strain has, each once.
pub proof fn law_strain_subvolumes(s: Seq<(Seq<char>, StrainView)>, n: nat, b: Seq<char>)
    requires
        n <= s.len(),
    ensures
        strain_bases(s, n).contains(b) <==> exists|i: int|
            0 <= i < n && (#[trigger] s[i]).1.subvolumes.contains(b),
        strain_bases(s, n).no_duplicates(),
    decreases n,
{
    if n > 0 {
        law_strain_subvolumes(s, (n - 1) as nat, b);
        let more = s[n - 1].1.subvolumes;
        lemma_with_bases(strain_bases(s, (n - 1) as nat), more, more.len(), b);
        assert(more.take(more.len() as int) =~= more);
        if more.contains(b) {
            assert(s[n - 1].1.subvolumes.contains(b));
        }
    }
}

/// Markers are ours for the subvolumes of the strains, and for the EFI staging
/// subvolume where EFI is enabled.
pub proof fn law_marker_bases(c: ConfigView, b: Seq<char>)
    ensures
        base_list(c).contains(b) <==> (exists|i: int|
            0 <= i < c.strain.len() && (#[trigger] c.strain[i]).1.subvolumes.contains(b)) || (
        c.sys.efi_enabled && b == c.sys.staging_subvol),
{
    law_strain_subvolumes(c.strain, c.strain.len(), b);
    lemma_with_base(strain_bases(c.strain, c.strain.len()), c.sys.staging_subvol, b);
}

proof fn lemma_marker_found(bases: Seq<Seq<char>>, name: Seq<char>)
    ensures
        marker_of(bases, name) matches Some((b, rest)) ==> bases.contains(b) && name == b
            + "-DELETE-"@ + rest,
        marker_of(bases, name) is None ==> forall|b: Seq<char>, rest: Seq<char>|
            bases.contains(b) ==> name != #[trigger] (b + "-DELETE-"@ + rest),
    decreases bases.len(),
{
    reveal_strlit("-DELETE-");
    reveal_strlit("DELETE");
    reveal_strlit("-");
    if bases.len() > 0 {
        let b = bases[0];
        let p = b + "-"@ + DELETE_STRAIN@ + "-"@;
        assert(p =~= b + "-DELETE-"@);
        lemma_marker_found(bases.skip(1), name);
        if p.is_prefix_of(name) {
            let rest = name.subrange(p.len() as int, name.len() as int);
            assert(name =~= p + rest);
            assert(bases.contains(b));
        } else {
            if marker_of(bases.skip(1), name) is Some {
                let x = marker_of(bases.skip(1), name)->Some_0.0;
                let k = choose|k: int| 0 <= k < bases.skip(1).len() && bases.skip(1)[k] == x;
                assert(bases[k + 1] == x);
            } else {
                assert forall|x: Seq<char>, rest: Seq<char>| bases.contains(x) implies name
                    != #[trigger] (x + "-DELETE-"@ + rest) by {
                    let k = choose|k: int| 0 <= k < bases.len() && bases[k] == x;
                    if k == 0 {
                        if name == x + "-DELETE-"@ + rest {
                            assert(name.subrange(0, p.len() as int) =~= p);
                        }
                    } else {
                        assert(bases.skip(1)[k - 1] == x);
                    }
                }
            }
        }
    }
}

/// A marker's name is that of a subvolume of ours, `-DELETE-` and a suffix, and
/// every such name is a marker's.
pub proof fn law_marker_names(c: ConfigView, toplevel: PathView, name: Seq<char>)
    requires
        file_name_of(toplevel.push(name)) == Some(name),
    ensures
        marker_at(c, toplevel.push(name)) is Some <==> exists|b: Seq<char>, rest: Seq<char>|
            base_list(c).contains(b) && name == #[trigger] (b + "-DELETE-"@ + rest),
        marker_at(c, toplevel.push(name)) matches Some((b, rest)) ==> base_list(c).contains(b)
            && name == b + "-DELETE-"@ + rest,
{
    lemma_marker_found(base_list(c), name);
    if marker_of(base_list(c), name) is Some {
        let (b, rest) = marker_of(base_list(c), name)->Some_0;
        assert(name == b + "-DELETE-"@ + rest);
    }
}

/// Whether `base` is the one subvolume of ours that `name` can be a marker of.
pub open spec fn only_base(c: ConfigView, name: Seq<char>, base: Seq<char>) -> bool {
    forall|b: Seq<char>, rest: Seq<char>|
        base_list(c).contains(b) && name == #[trigger] (b + "-DELETE-"@ + rest) ==> b == base
}

/// The tombstones listed are the markers whose suffix is an ID, each with what
/// its name says. One ages out the configured number of days after the instant
/// of its ID, to the nanosecond; with 0 days none does.
pub proof fn law_listed_tombstones(
    st: FsState,
    c: ConfigView,
    toplevel: PathView,
    v: Seq<TombstoneView>,
)
    requires
        lists_tombstones(st, c, toplevel, v),
    ensures
        forall|i: int|
            0 <= i < v.len() ==> {
                let t = #[trigger] v[i];
                &&& st.subvols.contains_key(toplevel.push(t.name))
                &&& t.name == t.base_subvol + "-DELETE-"@ + t.id
                &&& base_list(c).contains(t.base_subvol)
                &&& id_ok(t.id)
                &&& c.sys.tombstone_max_age_days == 0 || id_moment(t.id) is None ==> t.expires_at
                    is None
                &&& c.sys.tombstone_max_age_days != 0 ==> (id_moment(t.id) matches Some(m) ==> (
                m.wf() ==> (t.expires_at matches Some(e) && e.secs == m.secs
                    + c.sys.tombstone_max_age_days * 86_400 && e.nanos == m.nanos)))
            },
        forall|base: Seq<char>, id: Seq<char>|
            base_list(c).contains(base) && id_ok(id) && st.subvols.contains_key(
                toplevel.push(#[trigger] (base + "-DELETE-"@ + id)),
            ) && only_base(c, base + "-DELETE-"@ + id, base) && file_name_of(
                toplevel.push(base + "-DELETE-"@ + id),
            ) == Some(base + "-DELETE-"@ + id) ==> exists|i: int|
                0 <= i < v.len() && (#[trigger] v[i]).name == base + "-DELETE-"@ + id && v[i].id
                    == id,
{
    assert forall|i: int| 0 <= i < v.len() implies {
        let t = #[trigger] v[i];
        &&& st.subvols.contains_key(toplevel.push(t.name))
        &&& t.name == t.base_subvol + "-DELETE-"@ + t.id
        &&& base_list(c).contains(t.base_subvol)
        &&& id_ok(t.id)
    } by {
        let t = v[i];
        assert(is_tombstone(st, c, toplevel, t.name));
        assert(t == tombstone_of(c, toplevel, t.name));
        assert(toplevel.push(t.name).last() == t.name);
        lemma_marker_found(base_list(c), t.name);
    }
    assert forall|base: Seq<char>, id: Seq<char>|
        base_list(c).contains(base) && id_ok(id) && st.subvols.contains_key(
            toplevel.push(#[trigger] (base + "-DELETE-"@ + id)),
        ) && only_base(c, base + "-DELETE-"@ + id, base) && file_name_of(
            toplevel.push(base + "-DELETE-"@ + id),
        ) == Some(base + "-DELETE-"@ + id) implies exists|i: int|
        0 <= i < v.len() && (#[trigger] v[i]).name == base + "-DELETE-"@ + id && v[i].id == id by {
        let name = base + "-DELETE-"@ + id;
        lemma_only_suffix(c, toplevel, base, id);
        assert(is_tombstone(st, c, toplevel, name));
        assert(tombstone_names(v).contains(name));
        let i = choose|i: int| 0 <= i < tombstone_names(v).len() && tombstone_names(v)[i] == name;
        assert(v[i].name == name);
    }
}

proof fn lemma_only_suffix(c: ConfigView, toplevel: PathView, base: Seq<char>, id: Seq<char>)
    requires
        base_list(c).contains(base),
        only_base(c, base + "-DELETE-"@ + id, base),
        file_name_of(toplevel.push(base + "-DELETE-"@ + id)) == Some(base + "-DELETE-"@ + id),
    ensures
        marker_at(c, toplevel.push(base + "-DELETE-"@ + id)) == Some((base, id)),
{
    let name = base + "-DELETE-"@ + id;
    lemma_marker_found(base_list(c), name);
    let (b, rest) = marker_of(base_list(c), name)->Some_0;
    assert(name == b + "-DELETE-"@ + rest);
    assert(b == base);
    let n = base.len() + "-DELETE-"@.len();
    assert(name.skip(n as int) =~= id);
    assert(name.skip(n as int) =~= rest);
}

/// Whether a marker with the ID `id` is older than the configured age at
/// `now`, is said of the names that a purge takes: a listed tombstone is among
/// them exactly if expiry is on, its ID has a time, and that time and the age
/// together are before `now`.
pub proof fn law_expired_names(
    st: FsState,
    c: ConfigView,
    toplevel: PathView,
    v: Seq<TombstoneView>,
    now: Moment,
    i: int,
)
    requires
        lists_tombstones(st, c, toplevel, v),
        0 <= i < v.len(),
        id_moment(v[i].id) matches Some(m) ==> m.wf(),
    ensures
        expired_names(c, v, now).contains(v[i].name) <==> {
            &&& c.sys.tombstone_max_age_days != 0
            &&& id_moment(v[i].id) matches Some(m) && {
                let at = m.secs + c.sys.tombstone_max_age_days * 86_400;
                at < now.secs || (at == now.secs && m.nanos < now.nanos)
            }
        },
{
    lemma_ascending_distinct(tombstone_names(v));
    lemma_expired_member(c, v, now, v.len() as int, i);
    assert(v.take(v.len() as int) =~= v);
}

proof fn lemma_expired_member(
    c: ConfigView,
    v: Seq<TombstoneView>,
    now: Moment,
    n: int,
    i: int,
)
    requires
        tombstone_names(v).no_duplicates(),
        0 <= n <= v.len(),
        0 <= i < v.len(),
        id_moment(v[i].id) matches Some(m) ==> m.wf(),
    ensures
        expired_names(c, v.take(n), now).contains(v[i].name) <==> i < n
            && c.sys.tombstone_max_age_days != 0 && (id_moment(v[i].id) matches Some(m) && {
            let at = m.secs + c.sys.tombstone_max_age_days * 86_400;
            at < now.secs || (at == now.secs && m.nanos < now.nanos)
        }),
    decreases n,
{
    if n > 0 {
        lemma_expired_member(c, v, now, n - 1, i);
        assert(v.take(n).drop_last() =~= v.take(n - 1));
        assert(v.take(n).last() == v[n - 1]);
        let (all, first) = (expired_names(c, v.take(n), now), expired_names(c, v.take(n - 1), now));
        if first.contains(v[i].name) {
            let k = choose|k: int| 0 <= k < first.len() && first[k] == v[i].name;
            assert(all[k] == v[i].name);
        }
        if all.contains(v[i].name) && i != n - 1 {
            assert(tombstone_names(v)[i] != tombstone_names(v)[n - 1]);
            let k = choose|k: int| 0 <= k < all.len() && all[k] == v[i].name;
            assert(k < first.len());
            assert(first[k] == v[i].name);
        }
        if i == n - 1 && all.len() > first.len() {
            assert(all[first.len() as int] == v[i].name);
        }
    }
}

/// A cleanup that is not forced takes a marker of a subvolume of ours exactly
/// if it has aged out: the instant of its ID and the configured days together
/// are before `now`. With 0 days it takes none.
pub proof fn law_unforced_cleanup(
    a: FsState,
    b: FsState,
    c: ConfigView,
    toplevel: PathView,
    now: Moment,
    purged: Seq<Seq<char>>,
    base: Seq<char>,
    id: Seq<char>,
)
    requires
        aged_out_purged(a, b, c, toplevel, now, purged),
        base_list(c).contains(base),
        id_ok(id),
        id_moment(id) matches Some(m) ==> m.wf(),
        only_base(c, base + "-DELETE-"@ + id, base),
        file_name_of(toplevel.push(base + "-DELETE-"@ + id)) == Some(base + "-DELETE-"@ + id),
        a.subvols.contains_key(toplevel.push(base + "-DELETE-"@ + id)),
    ensures
        !b.subvols.contains_key(toplevel.push(base + "-DELETE-"@ + id)) <==> {
            &&& c.sys.tombstone_max_age_days != 0
            &&& id_moment(id) matches Some(m) && {
                let at = m.secs + c.sys.tombstone_max_age_days * 86_400;
                at < now.secs || (at == now.secs && m.nanos < now.nanos)
            }
        },
{
    if c.sys.tombstone_max_age_days != 0 {
        let name = base + "-DELETE-"@ + id;
        let v = choose|v: Seq<TombstoneView>| #[trigger]
            lists_tombstones(a, c, toplevel, v) && purged == expired_names(c, v, now)
                && only_markers_purged(a, b, c, toplevel, purged, true);
        law_listed_tombstones(a, c, toplevel, v);
        let i = choose|i: int|
            0 <= i < v.len() && (#[trigger] v[i]).name == base + "-DELETE-"@ + id && v[i].id == id;
        law_expired_names(a, c, toplevel, v, now, i);
        lemma_purged_named(a, b, c, toplevel, purged, name);
    }
}

proof fn lemma_purged_named(
    a: FsState,
    b: FsState,
    c: ConfigView,
    toplevel: PathView,
    names: Seq<Seq<char>>,
    name: Seq<char>,
)
    requires
        only_markers_purged(a, b, c, toplevel, names, true),
        a.subvols.contains_key(toplevel.push(name)),
    ensures
        b.subvols.contains_key(toplevel.push(name)) <==> !names.contains(name),
{
    reveal(gone);
    let p = toplevel.push(name);
    let paths = child_paths(toplevel, names);
    if names.contains(name) {
        let k = choose|k: int| 0 <= k < names.len() && names[k] == name;
        assert(paths[k] == p);
        assert(p.take(p.len() as int) =~= p);
        assert(gone(a, paths, p));
    } else if gone(a, paths, p) {
        let k = choose|k: int|
            0 <= k < paths.len() && a.subvols.contains_key(#[trigger] paths[k]) && within(
                p,
                paths[k],
            );
        assert(paths[k] == toplevel.push(names[k]));
        assert(p.take(p.len() as int) =~= p);
        assert(paths[k].last() == names[k]);
        assert(p.last() == name);
    }
}

/// A forced cleanup takes every marker of a subvolume of ours, whatever its
/// suffix and age, and no other subvolume at the top level.
pub proof fn law_forced_cleanup(
    a: FsState,
    b: FsState,
    c: ConfigView,
    toplevel: PathView,
    purged: Seq<Seq<char>>,
    name: Seq<char>,
)
    requires
        all_markers_purged(a, b, c, toplevel, purged),
        file_name_of(toplevel.push(name)) == Some(name),
        a.subvols.contains_key(toplevel.push(name)),
    ensures
        !b.subvols.contains_key(toplevel.push(name)) <==> exists|base: Seq<char>, rest: Seq<char>|
            base_list(c).contains(base) && name == #[trigger] (base + "-DELETE-"@ + rest),
{
    law_marker_names(c, toplevel, name);
    lemma_purged_named(a, b, c, toplevel, purged, name);
    if purged.contains(name) {
        let k = choose|k: int| 0 <= k < purged.len() && purged[k] == name;
        assert(is_marker(a, c, toplevel, purged[k]));
    }
    if marker_at(c, toplevel.push(name)) is Some {
        assert(is_marker(a, c, toplevel, name));
    }
}

/// A purge by name takes those of the listed tombstones whose names are given,
/// and no others.
pub proof fn law_purge_by_name(
    wanted: Seq<Seq<char>>,
    v: Seq<TombstoneView>,
    n: Seq<char>,
)
    ensures
        wanted_names(wanted, v).contains(n) <==> wanted.contains(n) && exists|i: int|
            0 <= i < v.len() && (#[trigger] v[i]).name == n,
    decreases v.len(),
{
    if v.len() > 0 {
        let u = v.drop_last();
        law_purge_by_name(wanted, u, n);
        let (all, first) = (wanted_names(wanted, v), wanted_names(wanted, u));
        if first.contains(n) {
            let k = choose|k: int| 0 <= k < first.len() && first[k] == n;
            assert(all[k] == n);
            let i = choose|i: int| 0 <= i < u.len() && (#[trigger] u[i]).name == n;
            assert(v[i].name == n);
        } else if all.contains(n) {
            let k = choose|k: int| 0 <= k < all.len() && all[k] == n;
            if k < first.len() {
                assert(first[k] == n);
            }
            assert(v[v.len() - 1].name == n);
        }
        if wanted.contains(n) && exists|i: int| 0 <= i < v.len() && (#[trigger] v[i]).name == n {
            let i = choose|i: int| 0 <= i < v.len() && (#[trigger] v[i]).name == n;
            if i < u.len() {
                assert(u[i].name == n);
            } else {
                assert(all[first.len() as int] == n);
            }
        }
    }
}

/// The preview marks a tombstone exactly if the cleanup is forced or the
/// tombstone has aged out.
pub proof fn law_previewed_tombstones(
    st: FsState,
    c: ConfigView,
    toplevel: PathView,
    p: Seq<PlanTombstone>,
    v: Seq<TombstoneView>,
    now: Moment,
    force: bool,
    i: int,
)
    requires
        lists_tombstones(st, c, toplevel, v),
        plans_tombstones(p, v, now, force),
        0 <= i < v.len(),
        id_moment(v[i].id) matches Some(m) ==> m.wf(),
    ensures
        p.len() == v.len(),
        p[i].tombstone@ == v[i],
        p[i].would_purge <==> force || {
            &&& c.sys.tombstone_max_age_days != 0
            &&& id_moment(v[i].id) matches Some(m) && {
                let at = m.secs + c.sys.tombstone_max_age_days * 86_400;
                at < now.secs || (at == now.secs && m.nanos < now.nanos)
            }
        },
{
    law_listed_tombstones(st, c, toplevel, v);
    assert(p[i].tombstone@ == v[i]);
}

} // verus!
