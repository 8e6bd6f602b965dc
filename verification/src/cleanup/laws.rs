//! What a cleanup's plan says of the cleanup itself.

use vstd::multiset::Multiset;
use vstd::prelude::*;
use vstd::string::*;

use crate::assoc::{distinct_keys, lemma_lookup_distinct, lemma_lookup_index, lookup};
use crate::backend::effects::gone;
use crate::backend::FsState;
use crate::cleanup::policy::{
    aged_out_purged, all_dropped, cleaned, drop_list, dropped, dropped_of, entries_of, is_plan,
    of_strain, plan_names, plan_views, plans_strains, plans_tombstones, strain_plan, would_purge,
    CleanupSummary, EntryView, PlanTombstone, RetentionPlan, StrainPlanView,
};
use crate::cleanup::recovery::{after_marker, base_list, marker_of};
use crate::cleanup::tombstones::{
    child_paths, expired_names, is_expired, is_tombstone, lemma_ascending_distinct, lists_tombstones,
    tombstone_names, TombstoneView,
};
use crate::clock::Moment;
use crate::config::{valid_strain_name, ConfigView, RetainConfig, StrainView, DELETE_STRAIN};
use crate::metadata::{sidecar_at, sidecar_name, strictly_ascending};
use crate::path::{is_component, lemma_join_component, within, PathView};
use crate::retention::{
    info_ids, is_kept, law_newest_first_sorts, lemma_sorted_member, newest_first,
};
use crate::snapshot::discovery::{
    discovered, is_snapshot, lemma_discovery_unique, lemma_found_has, lemma_parts_found,
    part_present, parts_found, snapshot_of,
    strain_parts,
};
use crate::snapshot::id::{
    id_ok, is_token_char, law_parse_undoes_naming, law_trailing_id, lemma_id_last, lemma_id_plain, name_text,
};
use crate::snapshot::info::{snap_dir_of, InfoView};
use crate::snapshot::laws::lemma_found_subset;
use crate::snapshot::operations::{all_paths, ids_of, part_path};
use crate::text::{lemma_text_less_irreflexive, lemma_text_less_transitive, text_less, views};

verus! {

/// The names of the tombstones that a plan marks.
pub open spec fn planned_purges(p: Seq<PlanTombstone>) -> Seq<Seq<char>>
    decreases p.len(),
{
    if p.len() == 0 {
        Seq::empty()
    } else if p.last().would_purge {
        planned_purges(p.drop_last()).push(p.last().tombstone@.name)
    } else {
        planned_purges(p.drop_last())
    }
}

/// The IDs of the rows that are marked for deletion.
pub open spec fn marked_ids(v: Seq<EntryView>) -> Seq<Seq<char>>
    decreases v.len(),
{
    if v.len() == 0 {
        Seq::empty()
    } else if v.last().action is Delete {
        marked_ids(v.drop_last()).push(v.last().id)
    } else {
        marked_ids(v.drop_last())
    }
}

/// The IDs of the rows that the plans of some strains mark for deletion.
pub open spec fn planned_deletes(v: Seq<StrainPlanView>) -> Seq<Seq<char>>
    decreases v.len(),
{
    if v.len() == 0 {
        Seq::empty()
    } else {
        planned_deletes(v.drop_last()) + marked_ids(v.last().entries)
    }
}

/// Those of some IDs that a policy does not keep.
spec fn unkept(full: Seq<InfoView>, retain: RetainConfig, ids: Seq<Seq<char>>) -> Seq<Seq<char>>
    decreases ids.len(),
{
    if ids.len() == 0 {
        Seq::empty()
    } else if is_kept(full, retain, ids.last()) {
        unkept(full, retain, ids.drop_last())
    } else {
        unkept(full, retain, ids.drop_last()).push(ids.last())
    }
}

proof fn lemma_unkept_count(
    full: Seq<InfoView>,
    retain: RetainConfig,
    ids: Seq<Seq<char>>,
    x: Seq<char>,
)
    ensures
        unkept(full, retain, ids).to_multiset().count(x) == if is_kept(full, retain, x) {
            0
        } else {
            ids.to_multiset().count(x)
        },
    decreases ids.len(),
{
    broadcast use vstd::seq_lib::group_to_multiset_ensures;

    if ids.len() > 0 {
        lemma_unkept_count(full, retain, ids.drop_last(), x);
        assert(ids =~= ids.drop_last().push(ids.last()));
    }
}

proof fn lemma_dropped_unkept(full: Seq<InfoView>, retain: RetainConfig, v: Seq<InfoView>)
    ensures
        ids_of(dropped_of(full, retain, v)) == unkept(full, retain, info_ids(v)),
    decreases v.len(),
{
    let ids = info_ids(v);
    if v.len() > 0 {
        let rest = v.drop_last();
        lemma_dropped_unkept(full, retain, rest);
        assert(info_ids(rest) =~= ids.drop_last());
        assert(ids.last() == v.last().id);
        if !is_kept(full, retain, v.last().id) {
            assert(ids_of(dropped_of(full, retain, v)) =~= ids_of(
                dropped_of(full, retain, rest),
            ).push(v.last().id));
        }
    } else {
        assert(ids_of(dropped_of(full, retain, v)) =~= Seq::empty());
        assert(ids =~= Seq::empty());
    }
}

proof fn lemma_marked_unkept(
    full: Seq<InfoView>,
    retain: RetainConfig,
    v: Seq<EntryView>,
    ids: Seq<Seq<char>>,
)
    requires
        v.len() == ids.len(),
        forall|i: int|
            0 <= i < v.len() ==> (#[trigger] v[i]).id == ids[i] && (v[i].action is Delete <==> !is_kept(
                full,
                retain,
                ids[i],
            )),
    ensures
        marked_ids(v) == unkept(full, retain, ids),
    decreases v.len(),
{
    if v.len() > 0 {
        assert(v.last() == v[v.len() - 1]);
        assert forall|i: int| 0 <= i < v.drop_last().len() implies (#[trigger] v.drop_last()[i]).id
            == ids.drop_last()[i] && (v.drop_last()[i].action is Delete <==> !is_kept(
            full,
            retain,
            ids.drop_last()[i],
        )) by {
            assert(v.drop_last()[i] == v[i]);
        }
        lemma_marked_unkept(full, retain, v.drop_last(), ids.drop_last());
    }
}

/// The rows of a strain's plan that are marked for deletion are the snapshots
/// that its policy drops.
proof fn lemma_strain_marked(all: Seq<InfoView>, strain: Seq<char>, s: StrainView)
    ensures
        marked_ids(strain_plan(all, strain, s).entries).to_multiset() == ids_of(
            dropped(all, strain, s.retain),
        ).to_multiset(),
{
    let v = of_strain(all, strain);
    let ids = info_ids(v);
    let sorted = newest_first(ids);
    let e = entries_of(v, s.retain);
    lemma_marked_unkept(v, s.retain, e, sorted);
    lemma_dropped_unkept(v, s.retain, v);
    law_newest_first_sorts(ids);
    assert forall|x: Seq<char>|
        unkept(v, s.retain, sorted).to_multiset().count(x) == #[trigger] unkept(
            v,
            s.retain,
            ids,
        ).to_multiset().count(x) by {
        lemma_unkept_count(v, s.retain, sorted, x);
        lemma_unkept_count(v, s.retain, ids, x);
    }
    assert(unkept(v, s.retain, sorted).to_multiset() =~= unkept(v, s.retain, ids).to_multiset());
}

/// What the policy of a strain drops.
spec fn dropped_by(c: ConfigView, all: Seq<InfoView>, n: Seq<char>) -> Multiset<Seq<char>> {
    ids_of(dropped(all, n, lookup(c.strain, n)->Some_0.retain)).to_multiset()
}

/// What the policies of some strains drop.
spec fn dropped_by_all(c: ConfigView, all: Seq<InfoView>, names: Seq<Seq<char>>) -> Multiset<
    Seq<char>,
>
    decreases names.len(),
{
    if names.len() == 0 {
        Multiset::empty()
    } else {
        dropped_by_all(c, all, names.drop_last()).add(dropped_by(c, all, names.last()))
    }
}

proof fn lemma_dropped_by_remove(c: ConfigView, all: Seq<InfoView>, names: Seq<Seq<char>>, k: int)
    requires
        0 <= k < names.len(),
    ensures
        dropped_by_all(c, all, names) == dropped_by_all(c, all, names.remove(k)).add(
            dropped_by(c, all, names[k]),
        ),
    decreases names.len(),
{
    let rest = names.remove(k);
    if k == names.len() - 1 {
        assert(rest =~= names.drop_last());
    } else {
        lemma_dropped_by_remove(c, all, names.drop_last(), k);
        assert(rest.drop_last() =~= names.drop_last().remove(k));
        assert(rest.last() == names.last());
        let x = dropped_by_all(c, all, rest.drop_last());
        let y = dropped_by(c, all, names[k]);
        let z = dropped_by(c, all, names.last());
        assert(x.add(y).add(z) =~= x.add(z).add(y));
    }
}

/// What is dropped does not depend on the order of the strains.
proof fn lemma_dropped_by_order(
    c: ConfigView,
    all: Seq<InfoView>,
    a: Seq<Seq<char>>,
    b: Seq<Seq<char>>,
)
    requires
        a.no_duplicates(),
        b.no_duplicates(),
        forall|n: Seq<char>| #[trigger] a.contains(n) <==> b.contains(n),
    ensures
        dropped_by_all(c, all, a) == dropped_by_all(c, all, b),
    decreases a.len(),
{
    if a.len() == 0 {
        if b.len() > 0 {
            assert(b.contains(b[0]));
            assert(a.contains(b[0]));
        }
    } else {
        let n = a.last();
        assert(a.contains(n));
        let k = choose|k: int| 0 <= k < b.len() && b[k] == n;
        let (x, y) = (a.drop_last(), b.remove(k));
        assert forall|m: Seq<char>| #[trigger] x.contains(m) <==> y.contains(m) by {
            if x.contains(m) {
                let i = choose|i: int| 0 <= i < x.len() && x[i] == m;
                assert(a[i] == m && m != n);
                assert(a.contains(m));
                let j = choose|j: int| 0 <= j < b.len() && b[j] == m;
                assert(j != k);
                assert(y[if j < k {
                    j
                } else {
                    j - 1
                }] == m);
            }
            if y.contains(m) {
                let j = choose|j: int| 0 <= j < y.len() && y[j] == m;
                let i = if j < k {
                    j
                } else {
                    j + 1
                };
                assert(b[i] == m && m != n);
                assert(b.contains(m));
                assert(a.contains(m));
                let l = choose|l: int| 0 <= l < a.len() && a[l] == m;
                assert(x[l] == m);
            }
        }
        assert(y.no_duplicates()) by {
            assert forall|i: int, j: int|
                0 <= i < y.len() && 0 <= j < y.len() && i != j implies y[i] != y[j] by {
                let p = if i < k {
                    i
                } else {
                    i + 1
                };
                let q = if j < k {
                    j
                } else {
                    j + 1
                };
                assert(y[i] == b[p] && y[j] == b[q] && p != q);
            }
        }
        lemma_dropped_by_order(c, all, x, y);
        lemma_dropped_by_remove(c, all, b, k);
    }
}

spec fn strain_names(c: ConfigView) -> Seq<Seq<char>> {
    Seq::new(c.strain.len(), |i: int| c.strain[i].0)
}

proof fn lemma_drop_list_sum(c: ConfigView, all: Seq<InfoView>, n: nat)
    requires
        distinct_keys(c.strain),
        n <= c.strain.len(),
    ensures
        ids_of(drop_list(c.strain, all, n)).to_multiset() == dropped_by_all(
            c,
            all,
            strain_names(c).take(n as int),
        ),
    decreases n,
{
    broadcast use vstd::seq_lib::group_to_multiset_ensures;

    let names = strain_names(c).take(n as int);
    if n > 0 {
        let m = (n - 1) as nat;
        lemma_drop_list_sum(c, all, m);
        lemma_lookup_distinct(c.strain, n - 1);
        assert(names.drop_last() =~= strain_names(c).take(m as int));
        let a = drop_list(c.strain, all, m);
        let b = dropped(all, c.strain[n - 1].0, c.strain[n - 1].1.retain);
        assert(ids_of(a + b) =~= ids_of(a) + ids_of(b));
        vstd::seq_lib::lemma_multiset_commutative(ids_of(a), ids_of(b));
    } else {
        assert(ids_of(drop_list(c.strain, all, n)) =~= Seq::empty());
        assert(Seq::<Seq<char>>::empty().to_multiset() =~= Multiset::empty());
    }
}

proof fn lemma_planned_sum(c: ConfigView, all: Seq<InfoView>, v: Seq<StrainPlanView>)
    requires
        forall|i: int|
            0 <= i < v.len() ==> lookup(c.strain, (#[trigger] v[i]).strain) is Some && v[i]
                == strain_plan(all, v[i].strain, lookup(c.strain, v[i].strain)->Some_0),
    ensures
        planned_deletes(v).to_multiset() == dropped_by_all(c, all, plan_names(v)),
    decreases v.len(),
{
    broadcast use vstd::seq_lib::group_to_multiset_ensures;

    let names = plan_names(v);
    if v.len() > 0 {
        let rest = v.drop_last();
        let x = v.last();
        assert(x == v[v.len() - 1]);
        assert forall|i: int| 0 <= i < rest.len() implies lookup(
            c.strain,
            (#[trigger] rest[i]).strain,
        ) is Some && rest[i] == strain_plan(
            all,
            rest[i].strain,
            lookup(c.strain, rest[i].strain)->Some_0,
        ) by {
            assert(rest[i] == v[i]);
        }
        lemma_planned_sum(c, all, rest);
        lemma_strain_marked(all, x.strain, lookup(c.strain, x.strain)->Some_0);
        assert(names.drop_last() =~= plan_names(rest));
        assert(names.last() == x.strain);
        vstd::seq_lib::lemma_multiset_commutative(planned_deletes(rest), marked_ids(x.entries));
    } else {
        assert(planned_deletes(v).to_multiset() =~= Multiset::empty());
    }
}

/// The rows that a plan marks for deletion are the snapshots that retention
/// drops.
proof fn lemma_deletes_planned(c: ConfigView, all: Seq<InfoView>, v: Seq<StrainPlanView>)
    requires
        distinct_keys(c.strain),
        plans_strains(c, all, v),
    ensures
        planned_deletes(v).to_multiset() == ids_of(all_dropped(c, all)).to_multiset(),
{
    let names = strain_names(c);
    lemma_planned_sum(c, all, v);
    lemma_drop_list_sum(c, all, c.strain.len());
    assert(names.take(c.strain.len() as int) =~= names);
    lemma_ascending_distinct(plan_names(v));
    assert forall|n: Seq<char>| #[trigger] names.contains(n) <==> plan_names(v).contains(n) by {
        if names.contains(n) {
            let i = choose|i: int| 0 <= i < names.len() && names[i] == n;
            lemma_lookup_distinct(c.strain, i);
            assert(lookup(c.strain, n) is Some);
        }
        if plan_names(v).contains(n) {
            let i = choose|i: int| 0 <= i < plan_names(v).len() && plan_names(v)[i] == n;
            assert(lookup(c.strain, v[i].strain) is Some);
            let j = lemma_lookup_index(c.strain, n);
            assert(names[j] == n);
        }
    }
    assert(names.no_duplicates()) by {
        assert forall|i: int, j: int|
            0 <= i < names.len() && 0 <= j < names.len() && i != j implies names[i] != names[j] by {
            if i < j {
                assert(c.strain[i].0 != c.strain[j].0);
            } else {
                assert(c.strain[j].0 != c.strain[i].0);
            }
        }
    }
    lemma_dropped_by_order(c, all, names, plan_names(v));
}

proof fn lemma_ascending_prefix(a: Seq<Seq<char>>, b: Seq<Seq<char>>, n: int)
    requires
        strictly_ascending(a),
        strictly_ascending(b),
        forall|x: Seq<char>| #[trigger] a.contains(x) <==> b.contains(x),
        0 <= n <= a.len(),
    ensures
        n <= b.len(),
        forall|i: int| 0 <= i < n ==> a[i] == b[i],
    decreases n,
{
    if n > 0 {
        let i = n - 1;
        lemma_ascending_prefix(a, b, i);
        let x = a[i];
        assert(a.contains(x));
        let k = choose|k: int| 0 <= k < b.len() && b[k] == x;
        lemma_text_less_irreflexive(x);
        if k < i {
            assert(a[k] == b[k]);
            assert(text_less(a[k], a[i]));
        }
        if k > i {
            let y = b[i];
            assert(text_less(b[i], b[k]));
            assert(b.contains(y));
            assert(a.contains(y));
            let m = choose|m: int| 0 <= m < a.len() && a[m] == y;
            lemma_text_less_irreflexive(y);
            if m < i {
                assert(b[m] == a[m]);
                assert(text_less(b[m], b[i]));
            } else if m > i {
                assert(text_less(a[i], a[m]));
                lemma_text_less_transitive(x, y, x);
            }
        }
    }
}

/// What lists the tombstones of one state is one list.
proof fn lemma_tombstones_unique(
    st: FsState,
    c: ConfigView,
    toplevel: PathView,
    v: Seq<TombstoneView>,
    w: Seq<TombstoneView>,
)
    requires
        lists_tombstones(st, c, toplevel, v),
        lists_tombstones(st, c, toplevel, w),
    ensures
        v == w,
{
    let (a, b) = (tombstone_names(v), tombstone_names(w));
    assert forall|x: Seq<char>| #[trigger] a.contains(x) <==> b.contains(x) by {
        if a.contains(x) {
            let i = choose|i: int| 0 <= i < a.len() && a[i] == x;
            assert(crate::cleanup::tombstones::is_tombstone(st, c, toplevel, v[i].name));
        }
        if b.contains(x) {
            let i = choose|i: int| 0 <= i < b.len() && b[i] == x;
            assert(crate::cleanup::tombstones::is_tombstone(st, c, toplevel, w[i].name));
        }
    }
    lemma_ascending_prefix(a, b, a.len() as int);
    lemma_ascending_prefix(b, a, b.len() as int);
    assert forall|i: int| 0 <= i < v.len() implies v[i] == w[i] by {
        assert(a[i] == b[i]);
        assert(v[i] == crate::cleanup::tombstones::tombstone_of(c, toplevel, v[i].name));
        assert(w[i] == crate::cleanup::tombstones::tombstone_of(c, toplevel, w[i].name));
    }
    assert(v =~= w);
}

/// The tombstones that a plan marks are those that have aged out.
proof fn lemma_purges_planned(
    c: ConfigView,
    p: Seq<PlanTombstone>,
    t: Seq<TombstoneView>,
    now: Moment,
)
    requires
        plans_tombstones(p, t, now, false),
        forall|i: int|
            0 <= i < t.len() ==> (would_purge(#[trigger] t[i], now, false) <==> is_expired(
                c,
                t[i].id,
                now,
            )),
    ensures
        planned_purges(p) == expired_names(c, t, now),
    decreases p.len(),
{
    if p.len() > 0 {
        let (q, u) = (p.drop_last(), t.drop_last());
        assert(p.last() == p[p.len() - 1]);
        assert(t.last() == t[t.len() - 1]);
        assert forall|i: int| 0 <= i < q.len() implies (#[trigger] q[i]).tombstone@ == u[i]
            && q[i].would_purge == would_purge(u[i], now, false) by {
            assert(q[i] == p[i]);
        }
        assert forall|i: int| 0 <= i < u.len() implies (would_purge(#[trigger] u[i], now, false)
            <==> is_expired(c, u[i].id, now)) by {
            assert(u[i] == t[i]);
        }
        lemma_purges_planned(c, q, u, now);
    }
}

/// A place in the snapshot directory stays when markers are purged, unless the
/// directory lies in one of them or the place is one of them.
proof fn lemma_not_purged(
    a: FsState,
    toplevel: PathView,
    dir: PathView,
    names: Seq<Seq<char>>,
    p: PathView,
)
    requires
        forall|i: int| 0 <= i < names.len() ==> !within(dir, toplevel.push(#[trigger] names[i])),
        p == dir || (p.len() == dir.len() + 1 && within(p, dir) && !names.contains(p.last())),
    ensures
        !gone(a, child_paths(toplevel, names), p),
{
    reveal(gone);
    let paths = child_paths(toplevel, names);
    if gone(a, paths, p) {
        let i = choose|i: int|
            0 <= i < paths.len() && a.subvols.contains_key(#[trigger] paths[i]) && within(
                p,
                paths[i],
            );
        assert(paths[i] == toplevel.push(names[i]));
        if paths[i].len() <= dir.len() {
            assert(dir.take(paths[i].len() as int) =~= p.take(paths[i].len() as int));
        } else {
            assert(p.take(p.len() as int) =~= p);
            assert(p.last() == names[i]);
        }
    }
}

proof fn lemma_parts_kept(
    a: FsState,
    b: FsState,
    dir: PathView,
    parts: Seq<Seq<char>>,
    strain: Seq<char>,
    id: Seq<char>,
)
    requires
        forall|part: Seq<char>| #[trigger]
            part_present(a, dir, part, strain, id) == part_present(b, dir, part, strain, id),
    ensures
        parts_found(a, dir, parts, strain, id) == parts_found(b, dir, parts, strain, id),
    decreases parts.len(),
{
    if parts.len() > 0 {
        lemma_parts_kept(a, b, dir, parts.drop_last(), strain, id);
        assert(part_present(a, dir, parts.last(), strain, id) == part_present(
            b,
            dir,
            parts.last(),
            strain,
            id,
        ));
    }
}

/// Whether `name` is that of a DELETE marker whose suffix is an ID.
pub open spec fn is_dated_marker(c: ConfigView, name: Seq<char>) -> bool {
    marker_of(base_list(c), name) matches Some((_, id)) && id_ok(id)
}

proof fn lemma_marker_split(bases: Seq<Seq<char>>, name: Seq<char>)
    requires
        marker_of(bases, name) is Some,
    ensures
        name == marker_of(bases, name)->Some_0.0 + "-"@ + DELETE_STRAIN@ + "-"@ + marker_of(
            bases,
            name,
        )->Some_0.1,
    decreases bases.len(),
{
    if after_marker(bases[0], name) is Some {
        let p = bases[0] + "-"@ + DELETE_STRAIN@ + "-"@;
        assert(name =~= p + name.subrange(p.len() as int, name.len() as int));
    } else {
        lemma_marker_split(bases.skip(1), name);
    }
}

/// A marker is no part of a snapshot.
proof fn lemma_marker_is_no_part(
    c: ConfigView,
    name: Seq<char>,
    part: Seq<char>,
    strain: Seq<char>,
    id: Seq<char>,
)
    requires
        is_dated_marker(c, name),
        valid_strain_name(strain),
        id_ok(id),
    ensures
        name != name_text(part, strain, id),
{
    reveal_strlit("-");
    reveal_strlit("DELETE");
    assert("-"@ =~= seq!['-']);
    lemma_marker_split(base_list(c), name);
    let (base, suffix) = marker_of(base_list(c), name)->Some_0;
    let p = base + "-"@ + DELETE_STRAIN@;
    let q = part + "-"@ + strain;
    if name == name_text(part, strain, id) {
        assert(name =~= p + seq!['-'] + suffix);
        assert(name =~= q + seq!['-'] + id);
        law_trailing_id(name, p, suffix);
        law_trailing_id(name, q, id);
        assert(p == q);
        let n = p.len() as int;
        let k = strain.len() as int;
        if k < 6 {
            assert(p[n - k - 1] == DELETE_STRAIN@[6 - k - 1]);
            assert(q[n - k - 1] == '-');
        } else if k > 6 {
            assert(p[n - 7] == '-');
            assert(q[n - 7] == strain[k - 7]);
            assert(is_token_char(strain[k - 7]));
        } else {
            assert forall|i: int| 0 <= i < 6 implies strain[i] == DELETE_STRAIN@[i] by {
                assert(q[n - 6 + i] == strain[i]);
                assert(p[n - 6 + i] == DELETE_STRAIN@[i]);
            }
            assert(strain =~= DELETE_STRAIN@);
        }
    }
}

/// A marker is no sidecar.
proof fn lemma_marker_is_no_sidecar(
    c: ConfigView,
    name: Seq<char>,
    strain: Seq<char>,
    id: Seq<char>,
)
    requires
        is_dated_marker(c, name),
    ensures
        name != sidecar_name(strain, id),
{
    reveal_strlit(".meta.toml");
    lemma_marker_split(base_list(c), name);
    let suffix = marker_of(base_list(c), name)->Some_0.1;
    lemma_id_last(suffix);
    assert(name.last() == suffix.last());
    assert(sidecar_name(strain, id).last() == 'l');
}

/// A purge of markers in which the snapshot directory does not lie changes
/// nothing in what discovery finds.
proof fn lemma_purge_keeps_discovery(
    a: FsState,
    b: FsState,
    c: ConfigView,
    toplevel: PathView,
    names: Seq<Seq<char>>,
    v: Seq<InfoView>,
    w: Seq<InfoView>,
)
    requires
        crate::backend::effects::pruned(a, b, child_paths(toplevel, names), Seq::empty(), true),
        forall|i: int|
            0 <= i < names.len() ==> !within(
                snap_dir_of(c, toplevel),
                toplevel.push(#[trigger] names[i]),
            ),
        forall|i: int| 0 <= i < names.len() ==> is_dated_marker(c, #[trigger] names[i]),
        forall|n: Seq<char>| #[trigger] lookup(c.strain, n) is Some ==> valid_strain_name(n),
        discovered(a, c, toplevel, v),
        discovered(b, c, toplevel, w),
    ensures
        v == w,
{
    let dir = snap_dir_of(c, toplevel);
    let paths = child_paths(toplevel, names);
    lemma_not_purged(a, toplevel, dir, names, dir);
    assert(a.subvols.contains_key(dir) == b.subvols.contains_key(dir));
    assert forall|strain: Seq<char>, id: Seq<char>|
        (#[trigger] is_snapshot(a, c, toplevel, strain, id) == is_snapshot(
            b,
            c,
            toplevel,
            strain,
            id,
        )) && (is_snapshot(a, c, toplevel, strain, id) ==> snapshot_of(
            a,
            c,
            toplevel,
            strain,
            id,
        ) == snapshot_of(b, c, toplevel, strain, id)) by {
        if lookup(c.strain, strain) is Some && id_ok(id) {
            assert(valid_strain_name(strain));
            assert forall|part: Seq<char>| #[trigger]
                part_present(a, dir, part, strain, id) == part_present(
                b,
                dir,
                part,
                strain,
                id,
            ) by {
                let n = name_text(part, strain, id);
                assert(dir.push(n).take(dir.len() as int) =~= dir);
                if names.contains(n) {
                    lemma_marker_is_no_part(c, n, part, strain, id);
                }
                lemma_not_purged(a, toplevel, dir, names, dir.push(n));
            }
            lemma_parts_kept(
                a,
                b,
                dir,
                strain_parts(c, lookup(c.strain, strain)->Some_0),
                strain,
                id,
            );
            let name = sidecar_name(strain, id);
            assert(is_component(name)) by {
                reveal_strlit(".meta.toml");
                reveal_strlit("-");
                reveal_strlit(".");
                lemma_id_plain(id);
                assert forall|i: int| 0 <= i < name.len() implies name[i] != '/' by {
                    let k = strain.len() as int;
                    if i < k {
                        assert(is_token_char(strain[i]));
                    } else if i > k && i < k + 1 + id.len() {
                        assert(name[i] == id[i - k - 1]);
                    }
                }
            }
            lemma_join_component(dir, name);
            let side = sidecar_at(dir, strain, id);
            assert(side == dir.push(name));
            assert(side.take(dir.len() as int) =~= dir);
            if names.contains(name) {
                lemma_marker_is_no_sidecar(c, name, strain, id);
            }
            lemma_not_purged(a, toplevel, dir, names, side);
            assert(a.files.contains_key(side) == b.files.contains_key(side));
        }
    }
    if a.subvols.contains_key(dir) {
        assert(crate::snapshot::discovery::is_discovery(a, c, toplevel, w, true)) by {
            assert forall|i: int| 0 <= i < w.len() implies is_snapshot(
                a,
                c,
                toplevel,
                (#[trigger] w[i]).strain,
                w[i].id,
            ) && crate::snapshot::discovery::same_info(
                w[i],
                snapshot_of(a, c, toplevel, w[i].strain, w[i].id),
                true,
            ) by {
                assert(is_snapshot(b, c, toplevel, w[i].strain, w[i].id));
                assert(is_snapshot(a, c, toplevel, w[i].strain, w[i].id) == is_snapshot(
                    b,
                    c,
                    toplevel,
                    w[i].strain,
                    w[i].id,
                ));
            }
            assert forall|strain: Seq<char>, id: Seq<char>| #[trigger]
                is_snapshot(a, c, toplevel, strain, id) implies exists|i: int|
                0 <= i < w.len() && (#[trigger] w[i]).strain == strain && w[i].id == id by {
                assert(is_snapshot(b, c, toplevel, strain, id));
            }
        }
        lemma_discovery_unique(a, c, toplevel, v, w);
    } else {
        assert(v =~= w);
    }
}

proof fn lemma_expired_are_dated(
    st: FsState,
    c: ConfigView,
    toplevel: PathView,
    u: Seq<TombstoneView>,
    n: int,
    now: Moment,
)
    requires
        lists_tombstones(st, c, toplevel, u),
        0 <= n <= u.len(),
    ensures
        forall|i: int|
            0 <= i < expired_names(c, u.take(n), now).len() ==> is_dated_marker(
                c,
                #[trigger] expired_names(c, u.take(n), now)[i],
            ),
        expired_names(c, u.take(u.len() as int), now) == expired_names(c, u, now),
    decreases n,
{
    assert(u.take(u.len() as int) =~= u);
    if n > 0 {
        lemma_expired_are_dated(st, c, toplevel, u, n - 1, now);
        assert(u.take(n).drop_last() =~= u.take(n - 1));
        let name = u[n - 1].name;
        assert(is_tombstone(st, c, toplevel, name));
        assert(toplevel.push(name).last() == name);
        assert(is_dated_marker(c, name));
        let (all, first) = (expired_names(c, u.take(n), now), expired_names(c, u.take(n - 1), now));
        assert forall|i: int| 0 <= i < all.len() implies is_dated_marker(c, #[trigger] all[i]) by {
            if i < first.len() {
                assert(all[i] == first[i]);
            } else {
                assert(all[i] == name);
            }
        }
    }
}

/// Whether `p` is the plan for the state `a` at `now`, and a cleanup at that
/// time purged the tombstones `purged`, which gave `s1`, found the snapshots
/// `all` in it, and left `b` after `s2`. The snapshot directory does not lie in
/// a tombstone that was purged.
pub open spec fn planned_cleanup(
    a: FsState,
    s1: FsState,
    s2: FsState,
    b: FsState,
    c: ConfigView,
    toplevel: PathView,
    now: Moment,
    p: RetentionPlan,
    all: Seq<InfoView>,
    purged: Seq<Seq<char>>,
    o: CleanupSummary,
) -> bool {
    &&& distinct_keys(c.strain)
    &&& forall|n: Seq<char>| #[trigger] lookup(c.strain, n) is Some ==> valid_strain_name(n)
    &&& forall|i: int|
        0 <= i < purged.len() ==> !within(
            snap_dir_of(c, toplevel),
            toplevel.push(#[trigger] purged[i]),
        )
    &&& is_plan(a, c, toplevel, now, false, p)
    &&& aged_out_purged(a, s1, c, toplevel, now, purged)
    &&& cleaned(s1, s2, b, c, toplevel, all, purged, o)
}

/// A plan is carried out: a cleanup of the same state at the same time removes
/// exactly the tombstones and the snapshots that the plan marks, and a
/// subvolume that lies in none of them stays.
pub proof fn law_plan_is_carried_out(
    a: FsState,
    s1: FsState,
    s2: FsState,
    b: FsState,
    c: ConfigView,
    toplevel: PathView,
    now: Moment,
    p: RetentionPlan,
    all: Seq<InfoView>,
    purged: Seq<Seq<char>>,
    o: CleanupSummary,
)
    requires
        planned_cleanup(a, s1, s2, b, c, toplevel, now, p, all, purged, o),
    ensures
        discovered(a, c, toplevel, all),
        plans_strains(c, all, plan_views(p.strains@)),
        forall|i: int| 0 <= i < purged.len() ==> is_dated_marker(c, #[trigger] purged[i]),
        purged == planned_purges(p.tombstones@),
        views(o.removed@).to_multiset() == (planned_purges(p.tombstones@) + planned_deletes(
            plan_views(p.strains@),
        )).to_multiset(),
        forall|x: PathView| #[trigger]
            a.subvols.contains_key(x) && !gone(a, child_paths(toplevel, purged), x) && !gone(
                s1,
                all_paths(c, toplevel, all_dropped(c, all)),
                x,
            ) ==> b.subvols.contains_key(x) && b.subvols[x] == a.subvols[x],
{
    let seen = choose|seen: Seq<InfoView>| #[trigger]
        discovered(a, c, toplevel, seen) && plans_strains(c, seen, plan_views(p.strains@));
    let t = choose|t: Seq<TombstoneView>| #[trigger]
        lists_tombstones(a, c, toplevel, t) && plans_tombstones(p.tombstones@, t, now, false);
    assert forall|i: int| 0 <= i < t.len() implies (would_purge(#[trigger] t[i], now, false)
        <==> is_expired(c, t[i].id, now)) by {
        assert(t[i] == crate::cleanup::tombstones::tombstone_of(c, toplevel, t[i].name));
    }
    lemma_purges_planned(c, p.tombstones@, t, now);
    if c.sys.tombstone_max_age_days == 0 {
        lemma_none_expired(c, t, now);
        assert(purged =~= planned_purges(p.tombstones@));
        crate::backend::effects::lemma_pruned_refl(a);
        assert(child_paths(toplevel, purged) =~= Seq::empty());
    } else {
        let u = choose|u: Seq<TombstoneView>| #[trigger]
            lists_tombstones(a, c, toplevel, u) && purged == expired_names(c, u, now)
                && crate::cleanup::tombstones::only_markers_purged(
                a,
                s1,
                c,
                toplevel,
                purged,
                true,
            );
        lemma_tombstones_unique(a, c, toplevel, t, u);
        lemma_expired_are_dated(a, c, toplevel, u, u.len() as int, now);
    }
    lemma_purge_keeps_discovery(a, s1, c, toplevel, purged, seen, all);
    lemma_deletes_planned(c, all, plan_views(p.strains@));
    let ids = ids_of(all_dropped(c, all));
    let planned = planned_deletes(plan_views(p.strains@));
    vstd::seq_lib::lemma_multiset_commutative(purged, ids);
    vstd::seq_lib::lemma_multiset_commutative(purged, planned);
}

proof fn lemma_of_strain_has(all: Seq<InfoView>, strain: Seq<char>, i: int) -> (k: int)
    requires
        0 <= i < of_strain(all, strain).len(),
    ensures
        0 <= k < all.len(),
        all[k] == of_strain(all, strain)[i],
        all[k].strain == strain,
    decreases all.len(),
{
    let first = of_strain(all.drop_last(), strain);
    if i < first.len() {
        lemma_of_strain_has(all.drop_last(), strain, i)
    } else {
        all.len() - 1
    }
}

proof fn lemma_dropped_has(
    full: Seq<InfoView>,
    retain: RetainConfig,
    v: Seq<InfoView>,
    i: int,
) -> (k: int)
    requires
        0 <= i < dropped_of(full, retain, v).len(),
    ensures
        0 <= k < v.len(),
        v[k] == dropped_of(full, retain, v)[i],
        !is_kept(full, retain, v[k].id),
    decreases v.len(),
{
    let first = dropped_of(full, retain, v.drop_last());
    if i < first.len() {
        lemma_dropped_has(full, retain, v.drop_last(), i)
    } else {
        v.len() - 1
    }
}

/// A snapshot that is dropped is one of those found, and its strain's policy
/// does not keep it.
proof fn lemma_drop_list_has(
    s: Seq<(Seq<char>, StrainView)>,
    all: Seq<InfoView>,
    n: nat,
    i: int,
) -> (k: int)
    requires
        distinct_keys(s),
        n <= s.len(),
        0 <= i < drop_list(s, all, n).len(),
    ensures
        0 <= k < all.len(),
        all[k] == drop_list(s, all, n)[i],
        lookup(s, all[k].strain) is Some,
        !is_kept(
            of_strain(all, all[k].strain),
            lookup(s, all[k].strain)->Some_0.retain,
            all[k].id,
        ),
    decreases n,
{
    let first = drop_list(s, all, (n - 1) as nat);
    if i < first.len() {
        lemma_drop_list_has(s, all, (n - 1) as nat, i)
    } else {
        let (name, st) = s[n - 1];
        let full = of_strain(all, name);
        let j = lemma_dropped_has(full, st.retain, full, i - first.len());
        let k = lemma_of_strain_has(all, name, j);
        lemma_lookup_distinct(s, n - 1);
        k
    }
}

proof fn lemma_all_paths_has(
    c: ConfigView,
    toplevel: PathView,
    v: Seq<InfoView>,
    i: int,
) -> (r: (int, int))
    requires
        0 <= i < all_paths(c, toplevel, v).len(),
    ensures
        0 <= r.0 < v.len(),
        0 <= r.1 < v[r.0].subvolumes.len(),
        all_paths(c, toplevel, v)[i] == part_path(
            c,
            toplevel,
            v[r.0].strain,
            v[r.0].id,
            v[r.0].subvolumes[r.1],
        ),
    decreases v.len(),
{
    let first = all_paths(c, toplevel, v.drop_last());
    if i < first.len() {
        lemma_all_paths_has(c, toplevel, v.drop_last(), i)
    } else {
        (v.len() - 1, i - first.len())
    }
}

/// Whether the parts of every strain have names without a slash.
pub open spec fn plain_parts(c: ConfigView) -> bool {
    forall|n: Seq<char>, k: int|
        lookup(c.strain, n) is Some && 0 <= k < strain_parts(
            c,
            lookup(c.strain, n)->Some_0,
        ).len() ==> is_component(#[trigger] strain_parts(c, lookup(c.strain, n)->Some_0)[k])
}

/// The place of a dropped snapshot's part.
proof fn lemma_dropped_path(
    st: FsState,
    c: ConfigView,
    toplevel: PathView,
    all: Seq<InfoView>,
    i: int,
) -> (r: (int, Seq<char>))
    requires
        distinct_keys(c.strain),
        forall|n: Seq<char>| #[trigger] lookup(c.strain, n) is Some ==> valid_strain_name(n),
        plain_parts(c),
        discovered(st, c, toplevel, all),
        0 <= i < all_paths(c, toplevel, all_dropped(c, all)).len(),
    ensures
        0 <= r.0 < all.len(),
        r.1.len() > 0,
        lookup(c.strain, all[r.0].strain) is Some,
        id_ok(all[r.0].id),
        !is_kept(
            of_strain(all, all[r.0].strain),
            lookup(c.strain, all[r.0].strain)->Some_0.retain,
            all[r.0].id,
        ),
        all_paths(c, toplevel, all_dropped(c, all))[i] == snap_dir_of(c, toplevel).push(
            name_text(r.1, all[r.0].strain, all[r.0].id),
        ),
{
    let gone_ones = all_dropped(c, all);
    let dir = snap_dir_of(c, toplevel);
    let (x, y) = lemma_all_paths_has(c, toplevel, gone_ones, i);
    let k = lemma_drop_list_has(c.strain, all, c.strain.len(), x);
    let d = all[k];
    let part = d.subvolumes[y];
    let parts = strain_parts(c, lookup(c.strain, d.strain)->Some_0);
    assert(is_snapshot(st, c, toplevel, d.strain, d.id));
    assert(d.subvolumes == snapshot_of(st, c, toplevel, d.strain, d.id).subvolumes);
    lemma_found_subset(st, dir, parts, d.strain, d.id, part);
    assert(parts_found(st, dir, parts, d.strain, d.id).contains(part));
    let z = choose|z: int| 0 <= z < parts.len() && parts[z] == part;
    assert(is_component(strain_parts(c, lookup(c.strain, d.strain)->Some_0)[z]));
    let name = name_text(part, d.strain, d.id);
    assert(is_component(name)) by {
        reveal_strlit("-");
        reveal_strlit(".");
        lemma_id_plain(d.id);
        assert(valid_strain_name(d.strain));
        assert forall|q: int| 0 <= q < name.len() implies name[q] != '/' by {
            let m = part.len() as int;
            let n = m + 1 + d.strain.len();
            if q < m {
                assert(name[q] == part[q]);
            } else if q > m && q < n {
                assert(name[q] == d.strain[q - m - 1]);
                assert(is_token_char(d.strain[q - m - 1]));
            } else if q > n {
                assert(name[q] == d.id[q - n - 1]);
            }
        }
    }
    lemma_join_component(dir, name);
    (k, part)
}

/// What a plan keeps is kept: a snapshot that the plan for the state marks as
/// kept still has all its parts after the cleanup.
pub proof fn law_planned_keeps_stay(
    a: FsState,
    s1: FsState,
    s2: FsState,
    b: FsState,
    c: ConfigView,
    toplevel: PathView,
    now: Moment,
    p: RetentionPlan,
    all: Seq<InfoView>,
    purged: Seq<Seq<char>>,
    o: CleanupSummary,
    i: int,
    j: int,
)
    requires
        planned_cleanup(a, s1, s2, b, c, toplevel, now, p, all, purged, o),
        plain_parts(c),
        0 <= i < plan_views(p.strains@).len(),
        0 <= j < plan_views(p.strains@)[i].entries.len(),
        plan_views(p.strains@)[i].entries[j].action is Keep,
    ensures
        ({
            let strain = plan_views(p.strains@)[i].strain;
            let id = plan_views(p.strains@)[i].entries[j].id;
            let parts = strain_parts(c, lookup(c.strain, strain)->Some_0);
            let dir = snap_dir_of(c, toplevel);
            &&& is_snapshot(b, c, toplevel, strain, id)
            &&& forall|k: int|
                0 <= k < parts.len() && part_present(a, dir, #[trigger] parts[k], strain, id)
                    ==> part_present(b, dir, parts[k], strain, id)
        }),
{
    law_plan_is_carried_out(a, s1, s2, b, c, toplevel, now, p, all, purged, o);
    let v = plan_views(p.strains@);
    let strain = v[i].strain;
    let id = v[i].entries[j].id;
    let s = lookup(c.strain, strain)->Some_0;
    let parts = strain_parts(c, s);
    let dir = snap_dir_of(c, toplevel);
    let mine = of_strain(all, strain);
    assert(v[i] == strain_plan(all, strain, s));
    assert(is_kept(mine, s.retain, id));
    lemma_sorted_member(info_ids(mine), id);
    assert(newest_first(info_ids(mine))[j] == id);
    let x = choose|x: int| 0 <= x < info_ids(mine).len() && info_ids(mine)[x] == id;
    let y = lemma_of_strain_has(all, strain, x);
    assert(all[y].id == id);
    assert(is_snapshot(a, c, toplevel, all[y].strain, all[y].id));
    assert(valid_strain_name(strain));
    assert forall|k: int|
        0 <= k < parts.len() && part_present(a, dir, #[trigger] parts[k], strain, id)
        implies part_present(b, dir, parts[k], strain, id) by {
        let name = name_text(parts[k], strain, id);
        let q = dir.push(name);
        assert(is_component(strain_parts(c, lookup(c.strain, strain)->Some_0)[k]));
        assert(q.take(dir.len() as int) =~= dir);
        if purged.contains(name) {
            lemma_marker_is_no_part(c, name, parts[k], strain, id);
        }
        lemma_not_purged(a, toplevel, dir, purged, q);
        let paths = all_paths(c, toplevel, all_dropped(c, all));
        if gone(s1, paths, q) {
            reveal(gone);
            let m = choose|m: int|
                0 <= m < paths.len() && s1.subvols.contains_key(#[trigger] paths[m]) && within(
                    q,
                    paths[m],
                );
            let (d, part) = lemma_dropped_path(s1, c, toplevel, all, m);
            let other = name_text(part, all[d].strain, all[d].id);
            assert(paths[m] == dir.push(other));
            assert(q.take(q.len() as int) =~= q);
            assert(dir.push(other).last() == other);
            assert(name == other);
            assert(valid_strain_name(all[d].strain));
            law_parse_undoes_naming(name, parts[k], strain, id);
            law_parse_undoes_naming(name, part, all[d].strain, all[d].id);
        }
        assert(b.subvols.contains_key(q));
    }
    let f = lemma_found_has(a, dir, parts, strain, id);
    assert(part_present(a, dir, parts[f], strain, id));
    lemma_parts_found(b, dir, parts, strain, id, f);
}

/// A tombstone that a plan does not mark stays, unless the top level itself
/// lies in a snapshot that is deleted.
pub proof fn law_unmarked_tombstones_stay(
    a: FsState,
    s1: FsState,
    s2: FsState,
    b: FsState,
    c: ConfigView,
    toplevel: PathView,
    now: Moment,
    p: RetentionPlan,
    all: Seq<InfoView>,
    purged: Seq<Seq<char>>,
    o: CleanupSummary,
    i: int,
)
    requires
        planned_cleanup(a, s1, s2, b, c, toplevel, now, p, all, purged, o),
        plain_parts(c),
        forall|k: int|
            0 <= k < all_paths(c, toplevel, all_dropped(c, all)).len() ==> !within(
                toplevel,
                #[trigger] all_paths(c, toplevel, all_dropped(c, all))[k],
            ),
        0 <= i < p.tombstones@.len(),
        !p.tombstones@[i].would_purge,
    ensures
        b.subvols.contains_key(toplevel.push(p.tombstones@[i].tombstone@.name)),
{
    law_plan_is_carried_out(a, s1, s2, b, c, toplevel, now, p, all, purged, o);
    let t = choose|t: Seq<TombstoneView>| #[trigger]
        lists_tombstones(a, c, toplevel, t) && plans_tombstones(p.tombstones@, t, now, false);
    let name = t[i].name;
    let q = toplevel.push(name);
    let dir = snap_dir_of(c, toplevel);
    assert(p.tombstones@[i].tombstone@ == t[i]);
    assert(is_tombstone(a, c, toplevel, name));
    assert(toplevel.push(name).last() == name);
    assert(is_dated_marker(c, name));
    if purged.contains(name) {
        let k = lemma_planned_has(p.tombstones@, name);
        assert(p.tombstones@[k].tombstone@ == t[k]);
        assert(t[k] == crate::cleanup::tombstones::tombstone_of(c, toplevel, name));
        assert(t[i] == crate::cleanup::tombstones::tombstone_of(c, toplevel, name));
    }
    assert(!gone(a, child_paths(toplevel, purged), q)) by {
        reveal(gone);
        let paths = child_paths(toplevel, purged);
        if gone(a, paths, q) {
            let m = choose|m: int|
                0 <= m < paths.len() && a.subvols.contains_key(#[trigger] paths[m]) && within(
                    q,
                    paths[m],
                );
            assert(paths[m] == toplevel.push(purged[m]));
            assert(q.take(q.len() as int) =~= q);
            assert(paths[m].last() == purged[m]);
        }
    }
    let paths = all_paths(c, toplevel, all_dropped(c, all));
    if gone(s1, paths, q) {
        reveal(gone);
        let m = choose|m: int|
            0 <= m < paths.len() && s1.subvols.contains_key(#[trigger] paths[m]) && within(
                q,
                paths[m],
            );
        let (d, part) = lemma_dropped_path(s1, c, toplevel, all, m);
        let other = name_text(part, all[d].strain, all[d].id);
        if paths[m].len() <= toplevel.len() {
            assert(toplevel.take(paths[m].len() as int) =~= q.take(paths[m].len() as int));
        } else {
            assert(q.take(q.len() as int) =~= q);
            assert(dir.push(other).last() == other);
            assert(valid_strain_name(all[d].strain));
            lemma_marker_is_no_part(c, name, part, all[d].strain, all[d].id);
        }
    }
}

proof fn lemma_planned_has(p: Seq<PlanTombstone>, name: Seq<char>) -> (k: int)
    requires
        planned_purges(p).contains(name),
    ensures
        0 <= k < p.len(),
        p[k].would_purge,
        p[k].tombstone@.name == name,
    decreases p.len(),
{
    let first = planned_purges(p.drop_last());
    if p.last().would_purge && p.last().tombstone@.name == name {
        p.len() - 1
    } else {
        let j = choose|j: int| 0 <= j < planned_purges(p).len() && planned_purges(p)[j] == name;
        assert(first[j] == name);
        lemma_planned_has(p.drop_last(), name)
    }
}

proof fn lemma_none_expired(c: ConfigView, t: Seq<TombstoneView>, now: Moment)
    requires
        c.sys.tombstone_max_age_days == 0,
    ensures
        expired_names(c, t, now).len() == 0,
    decreases t.len(),
{
    if t.len() > 0 {
        lemma_none_expired(c, t.drop_last(), now);
    }
}

} // verus!
