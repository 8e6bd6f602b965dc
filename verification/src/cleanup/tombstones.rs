//! DELETE markers: listing and purging them.
//!
//! A marker, or tombstone, is the live subvolume that a restore renamed to
//! `<base>-DELETE-<ts>`. It is kept as the previous state until it is purged.

use vstd::prelude::*;
use vstd::string::*;

use crate::backend::effects::{
    gone, lemma_pruned_refl, lemma_pruned_trans, lemma_pruned_weaken, lemma_pruned_without, pruned,
};
use crate::backend::{is_listing, FileSystemBackend, FsState};
use crate::cleanup::recovery::{
    base_list, collect_base_names, delete_subvolume_recursive, find_base, marker_at,
    recover_orphaned_nested_subvols, recovered, trimmed,
};
use crate::clock::Moment;
use crate::config::{Config, ConfigView};
use crate::error::Result;
use crate::metadata::strictly_ascending;
use crate::path::{is_child, within, FsPath, PathView};
use crate::snapshot::id::{id_moment, id_ok, SnapshotId};
use crate::text::{
    contains_text, lemma_text_less_total, lemma_text_less_transitive, lemma_views_push, precedes,
    text_less, views,
};

verus! {

/// A parsed `<base>-DELETE-<ts>` subvolume.
#[derive(Debug)]
pub struct Tombstone {
    /// The live subvolume that it was renamed from.
    pub base_subvol: String,
    /// When it was renamed.
    pub id: SnapshotId,
    /// Full subvolume name.
    pub name: String,
    /// When it ages out; `None` where expiry is disabled or the time cannot
    /// be told.
    pub expires_at: Option<Moment>,
}

/// A tombstone with its texts.
pub struct TombstoneView {
    pub base_subvol: Seq<char>,
    pub id: Seq<char>,
    pub name: Seq<char>,
    pub expires_at: Option<Moment>,
}

impl View for Tombstone {
    type V = TombstoneView;

    open spec fn view(&self) -> TombstoneView {
        TombstoneView {
            base_subvol: self.base_subvol@,
            id: self.id@,
            name: self.name@,
            expires_at: self.expires_at,
        }
    }
}

/// The tombstones of a list.
pub open spec fn tombstone_views(v: Seq<Tombstone>) -> Seq<TombstoneView> {
    Seq::new(v.len(), |i: int| v[i]@)
}

/// When a marker with the given ID ages out.
pub open spec fn expiry(c: ConfigView, id: Seq<char>) -> Option<Moment> {
    if c.sys.tombstone_max_age_days == 0 {
        None
    } else {
        match id_moment(id) {
            Some(m) => Some(m.later(c.sys.tombstone_max_age_days)),
            None => None,
        }
    }
}

/// Whether a marker with the given ID has aged out at `now`.
pub open spec fn is_expired(c: ConfigView, id: Seq<char>, now: Moment) -> bool {
    expiry(c, id) matches Some(e) && e.earlier(now)
}

/// Whether the child `name` of the toplevel is a marker whose suffix is an ID.
pub open spec fn is_tombstone(
    st: FsState,
    c: ConfigView,
    toplevel: PathView,
    name: Seq<char>,
) -> bool {
    let p = toplevel.push(name);
    &&& st.subvols.contains_key(p)
    &&& marker_at(c, p) is Some
    &&& id_ok(marker_at(c, p)->Some_0.1)
}

/// The tombstone that the child `name` of the toplevel is.
pub open spec fn tombstone_of(c: ConfigView, toplevel: PathView, name: Seq<char>) -> TombstoneView {
    let m = marker_at(c, toplevel.push(name))->Some_0;
    TombstoneView { base_subvol: m.0, id: m.1, name, expires_at: expiry(c, m.1) }
}

/// The names of some tombstones.
pub open spec fn tombstone_names(v: Seq<TombstoneView>) -> Seq<Seq<char>> {
    Seq::new(v.len(), |i: int| v[i].name)
}

/// Whether `v` lists the tombstones at the top level in order of their names,
/// each once.
pub open spec fn lists_tombstones(
    st: FsState,
    c: ConfigView,
    toplevel: PathView,
    v: Seq<TombstoneView>,
) -> bool {
    &&& strictly_ascending(tombstone_names(v))
    &&& forall|i: int|
        0 <= i < v.len() ==> is_tombstone(st, c, toplevel, (#[trigger] v[i]).name) && v[i]
            == tombstone_of(c, toplevel, v[i].name)
    &&& forall|n: Seq<char>| #[trigger]
        is_tombstone(st, c, toplevel, n) ==> tombstone_names(v).contains(n)
}

fn insert_tombstone(v: &mut Vec<Tombstone>, item: Tombstone)
    requires
        strictly_ascending(tombstone_names(tombstone_views(old(v)@))),
        !tombstone_names(tombstone_views(old(v)@)).contains(item@.name),
    ensures
        strictly_ascending(tombstone_names(tombstone_views(final(v)@))),
        exists|k: int|
            0 <= k <= old(v)@.len() && tombstone_views(final(v)@) == #[trigger] tombstone_views(
                old(v)@,
            ).insert(k, item@),
{
    let mut k: usize = 0;
    let ghost before = tombstone_names(tombstone_views(v@));
    while k < v.len() && precedes(v[k].name.as_str(), item.name.as_str())
        invariant
            k <= v.len(),
            before == tombstone_names(tombstone_views(v@)),
            forall|j: int| 0 <= j < k ==> text_less(#[trigger] before[j], item@.name),
        decreases v.len() - k,
    {
        assert(before[k as int] == v@[k as int].name@);
        k = k + 1;
    }
    proof {
        let now = before.insert(k as int, item@.name);
        let all = tombstone_views(v@);
        assert(tombstone_views(v@.insert(k as int, item)) =~= all.insert(k as int, item@));
        assert(tombstone_names(all.insert(k as int, item@)) =~= now);
        if k < v.len() {
            assert(before[k as int] == v@[k as int].name@);
            lemma_text_less_total(before[k as int], item@.name);
            assert(before[k as int] != item@.name);
        }
        assert forall|i: int, j: int| 0 <= i < j < now.len() implies text_less(
            #[trigger] now[i],
            #[trigger] now[j],
        ) by {
            if i < k && j > k {
                assert(text_less(before[i], before[j - 1]));
            } else if i == k {
                if j - 1 > k {
                    lemma_text_less_transitive(item@.name, before[k as int], before[j - 1]);
                }
            } else if i > k {
                assert(text_less(before[i - 1], before[j - 1]));
            }
        }
    }
    v.insert(k, item);
}

/// List all tombstones at the top level, sorted by name. A marker whose suffix
/// is no snapshot ID is left out.
pub fn list_tombstones<B: FileSystemBackend>(
    config: &Config,
    backend: &B,
    toplevel: &FsPath,
) -> (r: Result<Vec<Tombstone>>)
    ensures
        r matches Ok(v) ==> lists_tombstones(
            backend.state(),
            config@,
            toplevel@,
            tombstone_views(v@),
        ),
        backend.reliable() ==> r is Ok,
{
    let ghost st = backend.state();
    let bases = collect_base_names(config);
    let days: u32 = config.sys.tombstone_max_age_days;
    let all = match backend.list_subvolumes(toplevel) {
        Ok(v) => v,
        Err(e) => {
            return Err(e);
        },
    };
    let mut out: Vec<Tombstone> = Vec::new();
    let mut i: usize = 0;
    while i < all.len()
        invariant
            i <= all.len(),
            st == backend.state(),
            days == config@.sys.tombstone_max_age_days,
            views(bases@) == base_list(config@),
            is_listing(st, toplevel@, all@),
            strictly_ascending(tombstone_names(tombstone_views(out@))),
            forall|k: int|
                0 <= k < out.len() ==> is_tombstone(
                    st,
                    config@,
                    toplevel@,
                    (#[trigger] tombstone_views(out@)[k]).name,
                ) && tombstone_views(out@)[k] == tombstone_of(
                    config@,
                    toplevel@,
                    tombstone_views(out@)[k].name,
                ),
            forall|k: int|
                0 <= k < out.len() ==> exists|j: int|
                    0 <= j < i && (#[trigger] all[j]).path@ == toplevel@.push(
                        (#[trigger] tombstone_views(out@)[k]).name,
                    ),
            forall|j: int, n: Seq<char>|
                0 <= j < i && (#[trigger] all[j]).path@ == #[trigger] toplevel@.push(n)
                    && is_tombstone(st, config@, toplevel@, n) ==> tombstone_names(
                    tombstone_views(out@),
                ).contains(n),
        decreases all.len() - i,
    {
        let path = &all[i].path;
        let ghost before = tombstone_views(out@);
        let ghost mut added = false;
        proof {
            assert(path@ =~= toplevel@.push(path@.last()));
            assert forall|n: Seq<char>| path@ == #[trigger] toplevel@.push(n) implies n
                == path@.last() by {
                assert(toplevel@.push(n).last() == n);
            }
        }
        match path.file_name() {
            Some(name) => {
                match find_base(&bases, name) {
                    Some((b, suffix)) => {
                        match SnapshotId::from_string(suffix) {
                            Ok(id) => {
                                let expires_at: Option<Moment> = if days == 0 {
                                    None
                                } else {
                                    match id.created_at() {
                                        Some(m) => Some(m.plus_days(days)),
                                        None => None,
                                    }
                                };
                                let item = Tombstone {
                                    base_subvol: bases[b].clone(),
                                    id,
                                    name: name.to_owned(),
                                    expires_at,
                                };
                                proof {
                                    assert(is_tombstone(st, config@, toplevel@, name@));
                                    assert(item@ == tombstone_of(config@, toplevel@, name@));
                                    let names = tombstone_names(before);
                                    assert forall|k: int| 0 <= k < names.len() implies names[k]
                                        != name@ by {
                                        let j = choose|j: int|
                                            0 <= j < i && (#[trigger] all[j]).path@
                                                == toplevel@.push(before[k].name);
                                        assert(all[j].path@ != all[i as int].path@);
                                    }
                                }
                                insert_tombstone(&mut out, item);
                                proof {
                                    added = true;
                                    let k = choose|k: int|
                                        0 <= k <= before.len() && tombstone_views(out@)
                                            == #[trigger] before.insert(k, item@);
                                    lemma_insert_tombstone(
                                        before,
                                        k,
                                        item@,
                                    );
                                    let now = tombstone_views(out@);
                                    assert forall|y: int| 0 <= y < now.len() implies is_tombstone(
                                        st,
                                        config@,
                                        toplevel@,
                                        (#[trigger] now[y]).name,
                                    ) && now[y] == tombstone_of(
                                        config@,
                                        toplevel@,
                                        now[y].name,
                                    ) by {
                                        if y < k {
                                            assert(now[y] == before[y]);
                                        } else if y > k {
                                            assert(now[y] == before[y - 1]);
                                        }
                                    }
                                    assert forall|y: int| 0 <= y < now.len() implies exists|
                                        j: int,
                                    |
                                        0 <= j < i + 1 && (#[trigger] all[j]).path@
                                            == toplevel@.push((#[trigger] now[y]).name) by {
                                        if y == k {
                                            assert(all[i as int].path@ == toplevel@.push(
                                                now[y].name,
                                            ));
                                        } else {
                                            let x = if y < k {
                                                y
                                            } else {
                                                y - 1
                                            };
                                            assert(now[y] == before[x]);
                                            let j = choose|j: int|
                                                0 <= j < i && (#[trigger] all[j]).path@
                                                    == toplevel@.push(before[x].name);
                                            assert(all[j].path@ == toplevel@.push(now[y].name));
                                        }
                                    }
                                }
                            },
                            Err(_) => {},
                        }
                    },
                    None => {},
                }
            },
            None => {},
        }
        proof {
            let now = tombstone_views(out@);
            assert forall|j: int, n: Seq<char>|
                0 <= j < i + 1 && (#[trigger] all[j]).path@ == #[trigger] toplevel@.push(n)
                    && is_tombstone(st, config@, toplevel@, n) implies tombstone_names(
                now,
            ).contains(n) by {
                if j < i {
                    assert(tombstone_names(before).contains(n));
                } else {
                    assert(n == path@.last());
                    assert(added);
                }
            }
        }
        i = i + 1;
    }
    proof {
        let v = tombstone_views(out@);
        assert forall|n: Seq<char>| #[trigger] is_tombstone(
            st,
            config@,
            toplevel@,
            n,
        ) implies tombstone_names(v).contains(n) by {
            let p = toplevel@.push(n);
            assert(p.take(toplevel@.len() as int) =~= toplevel@);
            assert(st.subvols.contains_key(p) && is_child(p, toplevel@));
            let j = choose|j: int| 0 <= j < all.len() && (#[trigger] all[j]).path@ == p;
            assert(all[j].path@ == toplevel@.push(n));
        }
    }
    Ok(out)
}

proof fn lemma_insert_tombstone(v: Seq<TombstoneView>, k: int, x: TombstoneView)
    requires
        0 <= k <= v.len(),
    ensures
        tombstone_names(v.insert(k, x)).contains(x.name),
        forall|n: Seq<char>| #[trigger]
            tombstone_names(v).contains(n) ==> tombstone_names(v.insert(k, x)).contains(n),
{
    let w = v.insert(k, x);
    assert(tombstone_names(w)[k] == x.name);
    assert forall|n: Seq<char>| #[trigger] tombstone_names(v).contains(n) implies tombstone_names(
        w,
    ).contains(n) by {
        let i = choose|i: int| 0 <= i < tombstone_names(v).len() && tombstone_names(v)[i] == n;
        if i < k {
            assert(tombstone_names(w)[i] == n);
        } else {
            assert(tombstone_names(w)[i + 1] == n);
        }
    }
}

/// The paths of the children of `toplevel` with the given names.
pub open spec fn child_paths(toplevel: PathView, names: Seq<Seq<char>>) -> Seq<PathView> {
    Seq::new(names.len(), |i: int| toplevel.push(names[i]))
}

proof fn lemma_siblings(toplevel: PathView, n: Seq<char>, m: Seq<char>)
    requires
        n != m,
    ensures
        !within(toplevel.push(n), toplevel.push(m)),
{
    let p = toplevel.push(n);
    let q = toplevel.push(m);
    assert(p.take(q.len() as int) =~= p);
    assert(p.last() == n && q.last() == m);
}

proof fn lemma_not_gone(a: FsState, toplevel: PathView, names: Seq<Seq<char>>, n: Seq<char>)
    requires
        !names.contains(n),
    ensures
        !gone(a, child_paths(toplevel, names), toplevel.push(n)),
{
    reveal(gone);
    let paths = child_paths(toplevel, names);
    let p = toplevel.push(n);
    if gone(a, paths, p) {
        let i = choose|i: int|
            0 <= i < paths.len() && a.subvols.contains_key(#[trigger] paths[i]) && within(
                p,
                paths[i],
            );
        assert(names[i] != n);
        lemma_siblings(toplevel, n, names[i]);
    }
}

proof fn lemma_trimmed_pruned(a: FsState, b: FsState, path: PathView)
    requires
        trimmed(a, b, path),
        a.subvols.contains_key(path),
    ensures
        pruned(a, b, seq![path], Seq::empty(), false),
{
    reveal(gone);
    let ps = seq![path];
    assert forall|p: PathView| #[trigger] gone(a, ps, p) == within(p, path) by {
        if within(p, path) {
            assert(a.subvols.contains_key(ps[0]) && within(p, ps[0]));
        }
    }
}

/// Deletes the children of `toplevel` with the given names, each with all that
/// is nested in it, as far as it goes. Returns the names that were removed.
fn purge_each<B: FileSystemBackend>(backend: &mut B, toplevel: &FsPath, names: &Vec<String>) -> (r:
    Vec<String>)
    requires
        views(names@).no_duplicates(),
        forall|i: int|
            0 <= i < names@.len() ==> old(backend).state().subvols.contains_key(
                toplevel@.push(#[trigger] views(names@)[i]),
            ),
    ensures
        final(backend).reliable() == old(backend).reliable(),
        pruned(
            old(backend).state(),
            final(backend).state(),
            child_paths(toplevel@, views(names@)),
            Seq::empty(),
            old(backend).reliable(),
        ),
        forall|n: Seq<char>| #[trigger] views(r@).contains(n) ==> views(names@).contains(n),
        old(backend).reliable() ==> views(r@) == views(names@),
{
    let ghost a = backend.state();
    let ghost exact = backend.reliable();
    let ghost all = views(names@);
    let ghost paths = child_paths(toplevel@, all);
    let mut out: Vec<String> = Vec::new();
    let mut i: usize = 0;
    proof {
        lemma_pruned_refl(a);
        lemma_pruned_weaken(a, a, Seq::empty(), Seq::empty());
        assert(paths.take(0) =~= Seq::empty());
        assert(all.take(0) =~= Seq::empty());
        assert(views(out@) =~= Seq::empty());
    }
    while i < names.len()
        invariant
            i <= names.len(),
            all == views(names@),
            all.no_duplicates(),
            paths == child_paths(toplevel@, all),
            a == old(backend).state(),
            exact == old(backend).reliable(),
            backend.reliable() == exact,
            forall|j: int|
                0 <= j < all.len() ==> a.subvols.contains_key(toplevel@.push(#[trigger] all[j])),
            pruned(a, backend.state(), paths.take(i as int), Seq::empty(), exact),
            forall|n: Seq<char>| #[trigger] views(out@).contains(n) ==> all.contains(n),
            exact ==> views(out@) == all.take(i as int),
        decreases names.len() - i,
    {
        let path = toplevel.child(names[i].as_str());
        let ghost s = backend.state();
        proof {
            assert(all[i as int] == names@[i as int]@);
            assert(paths[i as int] == path@);
            assert(paths.take(i as int) =~= child_paths(toplevel@, all.take(i as int)));
            assert(!all.take(i as int).contains(all[i as int])) by {
                if all.take(i as int).contains(all[i as int]) {
                    let j = choose|j: int|
                        0 <= j < all.take(i as int).len() && all.take(i as int)[j]
                            == all[i as int];
                    assert(all[j] == all[i as int]);
                }
            }
            lemma_not_gone(a, toplevel@, all.take(i as int), all[i as int]);
            assert(a.subvols.contains_key(path@));
            assert(s.subvols.contains_key(path@));
            assert(paths.take(i + 1) =~= paths.take(i as int) + seq![path@]);
            assert(Seq::<PathView>::empty() + Seq::<PathView>::empty() =~= Seq::empty());
            assert(all.take(i + 1) =~= all.take(i as int).push(all[i as int]));
        }
        match delete_subvolume_recursive(backend, &path) {
            Ok(_) => {
                let name: String = names[i].clone();
                let ghost before = views(out@);
                proof {
                    lemma_pruned_without(s, path@);
                    lemma_pruned_weaken(s, backend.state(), seq![path@], Seq::empty());
                    lemma_views_push(out@, name);
                }
                out.push(name);
                proof {
                    assert forall|n: Seq<char>| #[trigger] views(out@).contains(
                        n,
                    ) implies all.contains(n) by {
                        let k = choose|k: int| 0 <= k < views(out@).len() && views(out@)[k] == n;
                        if k < before.len() {
                            assert(before[k] == n);
                            assert(before.contains(n));
                        } else {
                            assert(all[i as int] == n);
                        }
                    }
                }
            },
            Err(_) => {
                proof {
                    lemma_trimmed_pruned(s, backend.state(), path@);
                }
            },
        }
        proof {
            lemma_pruned_trans(
                a,
                s,
                backend.state(),
                paths.take(i as int),
                Seq::empty(),
                seq![path@],
                Seq::empty(),
                exact,
            );
        }
        i = i + 1;
    }
    proof {
        assert(paths.take(paths.len() as int) =~= paths);
        assert(all.take(all.len() as int) =~= all);
    }
    out
}

/// Whether the child `name` of the toplevel is a marker of a known subvolume,
/// whatever its suffix.
pub open spec fn is_marker(st: FsState, c: ConfigView, toplevel: PathView, name: Seq<char>) -> bool {
    st.subvols.contains_key(toplevel.push(name)) && marker_at(c, toplevel.push(name)) is Some
}

/// Whether a purge of markers turned `a` into `b`: only markers are lost, each
/// with all that is nested in it.
pub open spec fn only_markers_purged(
    a: FsState,
    b: FsState,
    c: ConfigView,
    toplevel: PathView,
    names: Seq<Seq<char>>,
    exact: bool,
) -> bool {
    &&& forall|i: int| 0 <= i < names.len() ==> is_marker(a, c, toplevel, #[trigger] names[i])
    &&& pruned(a, b, child_paths(toplevel, names), Seq::empty(), exact)
}

/// Delete all DELETE markers of the configured subvolumes. One that cannot be
/// deleted is left. Returns the names that were removed.
pub fn purge_all_tombstones<B: FileSystemBackend>(
    config: &Config,
    backend: &mut B,
    toplevel: &FsPath,
) -> (r: Result<Vec<String>>)
    ensures
        final(backend).reliable() == old(backend).reliable(),
        r is Err ==> final(backend).state() == old(backend).state(),
        old(backend).reliable() ==> r is Ok,
        exists|names: Seq<Seq<char>>| #[trigger]
            only_markers_purged(
                old(backend).state(),
                final(backend).state(),
                config@,
                toplevel@,
                names,
                false,
            ),
        r is Ok ==> forall|n: Seq<char>| #[trigger]
            views(r->Ok_0@).contains(n) ==> is_marker(
                old(backend).state(),
                config@,
                toplevel@,
                n,
            ),
        old(backend).reliable() ==> only_markers_purged(
            old(backend).state(),
            final(backend).state(),
            config@,
            toplevel@,
            views(r->Ok_0@),
            true,
        ) && forall|n: Seq<char>| #[trigger]
            is_marker(old(backend).state(), config@, toplevel@, n) ==> views(r->Ok_0@).contains(n),
{
    let ghost st = backend.state();
    let bases = collect_base_names(config);
    let all = match backend.list_subvolumes(toplevel) {
        Ok(v) => v,
        Err(e) => {
            proof {
                lemma_pruned_refl(st);
                lemma_pruned_weaken(st, st, Seq::empty(), Seq::empty());
                assert(child_paths(toplevel@, Seq::empty()) =~= Seq::empty());
                assert(only_markers_purged(
                    st,
                    st,
                    config@,
                    toplevel@,
                    Seq::empty(),
                    false,
                ));
            }
            return Err(e);
        },
    };
    let mut names: Vec<String> = Vec::new();
    let mut i: usize = 0;
    while i < all.len()
        invariant
            i <= all.len(),
            st == backend.state(),
            views(bases@) == base_list(config@),
            is_listing(st, toplevel@, all@),
            views(names@).no_duplicates(),
            forall|k: int|
                0 <= k < names.len() ==> is_marker(
                    st,
                    config@,
                    toplevel@,
                    #[trigger] views(names@)[k],
                ),
            forall|k: int|
                0 <= k < names.len() ==> exists|j: int|
                    0 <= j < i && (#[trigger] all[j]).path@ == toplevel@.push(
                        #[trigger] views(names@)[k],
                    ),
            forall|j: int, n: Seq<char>|
                0 <= j < i && (#[trigger] all[j]).path@ == #[trigger] toplevel@.push(n)
                    && is_marker(st, config@, toplevel@, n) ==> views(names@).contains(n),
        decreases all.len() - i,
    {
        let path = &all[i].path;
        let ghost before = views(names@);
        let ghost mut added = false;
        proof {
            assert(path@ =~= toplevel@.push(path@.last()));
            assert forall|n: Seq<char>| path@ == #[trigger] toplevel@.push(n) implies n
                == path@.last() by {
                assert(toplevel@.push(n).last() == n);
            }
        }
        match path.file_name() {
            Some(name) => {
                match find_base(&bases, name) {
                    Some(_) => {
                        let item: String = name.to_owned();
                        proof {
                            added = true;
                            lemma_views_push(names@, item);
                            assert(is_marker(st, config@, toplevel@, name@));
                            assert forall|k: int| 0 <= k < before.len() implies before[k]
                                != name@ by {
                                let j = choose|j: int|
                                    0 <= j < i && (#[trigger] all[j]).path@ == toplevel@.push(
                                        before[k],
                                    );
                                assert(all[j].path@ != all[i as int].path@);
                            }
                        }
                        names.push(item);
                        proof {
                            let now = views(names@);
                            assert(now == before.push(name@));
                            assert forall|y: int| 0 <= y < now.len() implies exists|j: int|
                                0 <= j < i + 1 && (#[trigger] all[j]).path@ == toplevel@.push(
                                    #[trigger] now[y],
                                ) by {
                                if y < before.len() {
                                    assert(now[y] == before[y]);
                                    let j = choose|j: int|
                                        0 <= j < i && (#[trigger] all[j]).path@ == toplevel@.push(
                                            before[y],
                                        );
                                    assert(all[j].path@ == toplevel@.push(now[y]));
                                } else {
                                    assert(all[i as int].path@ == toplevel@.push(now[y]));
                                }
                            }
                        }
                    },
                    None => {},
                }
            },
            None => {},
        }
        proof {
            let now = views(names@);
            assert forall|j: int, n: Seq<char>|
                0 <= j < i + 1 && (#[trigger] all[j]).path@ == #[trigger] toplevel@.push(n)
                    && is_marker(st, config@, toplevel@, n) implies now.contains(n) by {
                if j < i {
                    assert(before.contains(n));
                    let k = choose|k: int| 0 <= k < before.len() && before[k] == n;
                    assert(now[k] == n);
                } else {
                    assert(n == path@.last());
                    assert(added);
                    assert(now[now.len() - 1] == n);
                }
            }
        }
        i = i + 1;
    }
    proof {
        assert forall|n: Seq<char>| #[trigger] is_marker(
            st,
            config@,
            toplevel@,
            n,
        ) implies views(names@).contains(n) by {
            let p = toplevel@.push(n);
            assert(p.take(toplevel@.len() as int) =~= toplevel@);
            assert(st.subvols.contains_key(p) && is_child(p, toplevel@));
            let j = choose|j: int| 0 <= j < all.len() && (#[trigger] all[j]).path@ == p;
            assert(all[j].path@ == toplevel@.push(n));
        }
    }
    let removed = purge_each(backend, toplevel, &names);
    proof {
        let b = backend.state();
        let paths = child_paths(toplevel@, views(names@));
        if backend.reliable() {
            lemma_pruned_weaken(st, b, paths, Seq::empty());
            assert(only_markers_purged(st, b, config@, toplevel@, views(removed@), true));
        }
        assert(only_markers_purged(st, b, config@, toplevel@, views(names@), false));
        assert forall|n: Seq<char>| #[trigger] views(removed@).contains(n) implies is_marker(
            st,
            config@,
            toplevel@,
            n,
        ) by {
            assert(views(names@).contains(n));
            let k = choose|k: int| 0 <= k < views(names@).len() && views(names@)[k] == n;
            assert(is_marker(st, config@, toplevel@, views(names@)[k]));
        }
    }
    Ok(removed)
}

/// The names of those tombstones that have aged out at `now`.
pub open spec fn expired_names(c: ConfigView, v: Seq<TombstoneView>, now: Moment) -> Seq<Seq<char>>
    decreases v.len(),
{
    if v.len() == 0 {
        Seq::empty()
    } else if is_expired(c, v.last().id, now) {
        expired_names(c, v.drop_last(), now).push(v.last().name)
    } else {
        expired_names(c, v.drop_last(), now)
    }
}

/// The names of those tombstones that are wanted.
pub open spec fn wanted_names(wanted: Seq<Seq<char>>, v: Seq<TombstoneView>) -> Seq<Seq<char>>
    decreases v.len(),
{
    if v.len() == 0 {
        Seq::empty()
    } else if wanted.contains(v.last().name) {
        wanted_names(wanted, v.drop_last()).push(v.last().name)
    } else {
        wanted_names(wanted, v.drop_last())
    }
}

/// Whether `names` are names of tombstones of `v`, in their order.
spec fn is_selection(names: Seq<Seq<char>>, v: Seq<TombstoneView>) -> bool {
    &&& forall|i: int| 0 <= i < names.len() ==> tombstone_names(v).contains(#[trigger] names[i])
    &&& tombstone_names(v).no_duplicates() ==> names.no_duplicates()
}

proof fn lemma_selection_push(
    names: Seq<Seq<char>>,
    v: Seq<TombstoneView>,
    t: TombstoneView,
    keep: bool,
)
    requires
        is_selection(names, v),
    ensures
        is_selection(
            if keep {
                names.push(t.name)
            } else {
                names
            },
            v.push(t),
        ),
{
    let w = v.push(t);
    let out = if keep {
        names.push(t.name)
    } else {
        names
    };
    let a = tombstone_names(v);
    let b = tombstone_names(w);
    assert(b =~= a.push(t.name));
    assert forall|i: int| 0 <= i < out.len() implies b.contains(#[trigger] out[i]) by {
        if i < names.len() {
            assert(a.contains(names[i]));
            let k = choose|k: int| 0 <= k < a.len() && a[k] == names[i];
            assert(b[k] == out[i]);
        } else {
            assert(b[a.len() as int] == out[i]);
        }
    }
    if b.no_duplicates() {
        assert(a.no_duplicates()) by {
            assert forall|i: int, j: int|
                0 <= i < a.len() && 0 <= j < a.len() && i != j implies a[i] != a[j] by {
                assert(b[i] != b[j]);
            }
        }
        assert forall|i: int, j: int|
            0 <= i < out.len() && 0 <= j < out.len() && i != j implies out[i] != out[j] by {
            if keep {
                let last = names.len() as int;
                if i == last || j == last {
                    let o = if i == last {
                        j
                    } else {
                        i
                    };
                    assert(a.contains(names[o]));
                    let k = choose|k: int| 0 <= k < a.len() && a[k] == names[o];
                    assert(b[k] != b[a.len() as int]);
                } else {
                    assert(names[i] != names[j]);
                }
            }
        }
    }
}

/// Texts in strictly ascending order are distinct.
pub proof fn lemma_ascending_distinct(v: Seq<Seq<char>>)
    requires
        strictly_ascending(v),
    ensures
        v.no_duplicates(),
{
    assert forall|i: int, j: int|
        0 <= i < v.len() && 0 <= j < v.len() && i != j implies v[i] != v[j] by {
        crate::text::lemma_text_less_irreflexive(v[i]);
        if i < j {
            assert(text_less(v[i], v[j]));
        } else {
            assert(text_less(v[j], v[i]));
        }
    }
}

proof fn lemma_expired_selection(c: ConfigView, v: Seq<TombstoneView>, now: Moment)
    ensures
        is_selection(expired_names(c, v, now), v),
    decreases v.len(),
{
    if v.len() > 0 {
        lemma_expired_selection(c, v.drop_last(), now);
        lemma_selection_push(
            expired_names(c, v.drop_last(), now),
            v.drop_last(),
            v.last(),
            is_expired(c, v.last().id, now),
        );
        assert(v.drop_last().push(v.last()) =~= v);
    }
}

proof fn lemma_wanted_selection(wanted: Seq<Seq<char>>, v: Seq<TombstoneView>)
    ensures
        is_selection(wanted_names(wanted, v), v),
    decreases v.len(),
{
    if v.len() > 0 {
        lemma_wanted_selection(wanted, v.drop_last());
        lemma_selection_push(
            wanted_names(wanted, v.drop_last()),
            v.drop_last(),
            v.last(),
            wanted.contains(v.last().name),
        );
        assert(v.drop_last().push(v.last()) =~= v);
    }
}

proof fn lemma_selected_markers(
    st: FsState,
    c: ConfigView,
    toplevel: PathView,
    v: Seq<TombstoneView>,
    names: Seq<Seq<char>>,
)
    requires
        lists_tombstones(st, c, toplevel, v),
        is_selection(names, v),
    ensures
        names.no_duplicates(),
        forall|i: int| 0 <= i < names.len() ==> is_marker(st, c, toplevel, #[trigger] names[i]),
{
    lemma_ascending_distinct(tombstone_names(v));
    assert forall|i: int| 0 <= i < names.len() implies is_marker(
        st,
        c,
        toplevel,
        #[trigger] names[i],
    ) by {
        assert(tombstone_names(v).contains(names[i]));
        let k = choose|k: int| 0 <= k < tombstone_names(v).len() && tombstone_names(v)[k] == names[i];
        assert(is_tombstone(st, c, toplevel, v[k].name));
    }
}

/// Purge tombstones older than the configured age. An age of 0 disables
/// expiry. One that cannot be deleted is left. Returns the names that were
/// removed.
pub fn purge_expired_tombstones<B: FileSystemBackend>(
    config: &Config,
    backend: &mut B,
    toplevel: &FsPath,
    now: Moment,
) -> (r: Result<Vec<String>>)
    requires
        now.wf(),
    ensures
        final(backend).reliable() == old(backend).reliable(),
        r is Err ==> final(backend).state() == old(backend).state(),
        old(backend).reliable() ==> r is Ok,
        config@.sys.tombstone_max_age_days == 0 ==> r is Ok && r->Ok_0@.len() == 0 && final(
            backend).state() == old(backend).state(),
        exists|names: Seq<Seq<char>>| #[trigger]
            only_markers_purged(
                old(backend).state(),
                final(backend).state(),
                config@,
                toplevel@,
                names,
                false,
            ),
        old(backend).reliable() && config@.sys.tombstone_max_age_days != 0 ==> exists|
            v: Seq<TombstoneView>,
        | #[trigger]
            lists_tombstones(old(backend).state(), config@, toplevel@, v) && views(r->Ok_0@)
                == expired_names(config@, v, now) && only_markers_purged(
                old(backend).state(),
                final(backend).state(),
                config@,
                toplevel@,
                views(r->Ok_0@),
                true,
            ),
{
    let ghost st = backend.state();
    let ghost exact = backend.reliable();
    proof {
        lemma_pruned_refl(st);
        lemma_pruned_weaken(st, st, Seq::empty(), Seq::empty());
        assert(child_paths(toplevel@, Seq::empty()) =~= Seq::empty());
        assert(only_markers_purged(st, st, config@, toplevel@, Seq::empty(), false));
    }
    let days: u32 = config.sys.tombstone_max_age_days;
    if days == 0 {
        return Ok(Vec::new());
    }
    let cutoff = now.minus_days(days);
    let all = match list_tombstones(config, backend, toplevel) {
        Ok(v) => v,
        Err(e) => {
            return Err(e);
        },
    };
    let ghost v = tombstone_views(all@);
    let mut names: Vec<String> = Vec::new();
    let mut i: usize = 0;
    proof {
        assert(v.take(0) =~= Seq::empty());
        assert(views(names@) =~= Seq::empty());
    }
    while i < all.len()
        invariant
            i <= all.len(),
            v == tombstone_views(all@),
            now.wf(),
            days > 0,
            days == config@.sys.tombstone_max_age_days,
            cutoff.secs == now.secs - days * 86_400,
            cutoff.nanos == now.nanos,
            views(names@) == expired_names(config@, v.take(i as int), now),
        decreases all.len() - i,
    {
        proof {
            assert(v.take(i + 1).drop_last() =~= v.take(i as int));
            assert(v.take(i + 1).last() == all@[i as int]@);
        }
        match all[i].id.created_at() {
            Some(created) => {
                if created.before(&cutoff) {
                    let name: String = all[i].name.clone();
                    proof {
                        lemma_views_push(names@, name);
                    }
                    names.push(name);
                }
            },
            None => {},
        }
        i = i + 1;
    }
    proof {
        assert(v.take(v.len() as int) =~= v);
        lemma_expired_selection(config@, v, now);
        lemma_selected_markers(st, config@, toplevel@, v, views(names@));
    }
    let removed: Result<Vec<String>> = Ok(purge_each(backend, toplevel, &names));
    proof {
        let b = backend.state();
        if exact {
            lemma_pruned_weaken(st, b, child_paths(toplevel@, views(names@)), Seq::empty());
            assert(only_markers_purged(st, b, config@, toplevel@, views(removed->Ok_0@), true));
            assert(lists_tombstones(st, config@, toplevel@, v));
        }
        assert(only_markers_purged(st, b, config@, toplevel@, views(names@), false));
    }
    removed
}

/// Purge specific tombstones by subvolume name, after recovering what is
/// stranded in markers. A name that is no current tombstone is skipped, and
/// one that cannot be deleted is left. Returns the names that were removed.
pub fn purge_tombstones_by_name<B: FileSystemBackend>(
    config: &Config,
    backend: &mut B,
    toplevel: &FsPath,
    names: &Vec<String>,
) -> (r: Result<Vec<String>>)
    ensures
        final(backend).reliable() == old(backend).reliable(),
        names@.len() == 0 ==> r is Ok && r->Ok_0@.len() == 0 && final(backend).state() == old(
            backend).state(),
        old(backend).reliable() ==> r is Ok,
        r is Ok && names@.len() > 0 ==> exists|mid: FsState, n: nat| #[trigger]
            recovered(
                old(backend).state(),
                mid,
                config@,
                toplevel@,
                n,
                old(backend).reliable(),
            ) && purged_wanted(
                mid,
                final(backend).state(),
                config@,
                toplevel@,
                views(names@),
                views(r->Ok_0@),
                old(backend).reliable(),
            ),
{
    if names.len() == 0 {
        return Ok(Vec::new());
    }
    match recover_orphaned_nested_subvols(config, backend, toplevel) {
        Ok(_) => {},
        Err(e) => {
            return Err(e);
        },
    }
    let ghost mid = backend.state();
    let ghost exact = backend.reliable();
    let all = match list_tombstones(config, backend, toplevel) {
        Ok(v) => v,
        Err(e) => {
            return Err(e);
        },
    };
    let ghost v = tombstone_views(all@);
    let ghost wanted = views(names@);
    let mut chosen: Vec<String> = Vec::new();
    let mut i: usize = 0;
    proof {
        assert(v.take(0) =~= Seq::empty());
        assert(views(chosen@) =~= Seq::empty());
    }
    while i < all.len()
        invariant
            i <= all.len(),
            v == tombstone_views(all@),
            wanted == views(names@),
            views(chosen@) == wanted_names(wanted, v.take(i as int)),
        decreases all.len() - i,
    {
        proof {
            assert(v.take(i + 1).drop_last() =~= v.take(i as int));
            assert(v.take(i + 1).last() == all@[i as int]@);
        }
        if contains_text(names, all[i].name.as_str()) {
            let name: String = all[i].name.clone();
            proof {
                lemma_views_push(chosen@, name);
            }
            chosen.push(name);
        }
        i = i + 1;
    }
    proof {
        assert(v.take(v.len() as int) =~= v);
        lemma_wanted_selection(wanted, v);
        lemma_selected_markers(mid, config@, toplevel@, v, views(chosen@));
    }
    let removed: Result<Vec<String>> = Ok(purge_each(backend, toplevel, &chosen));
    proof {
        let b = backend.state();
        if exact {
            lemma_pruned_weaken(mid, b, child_paths(toplevel@, views(chosen@)), Seq::empty());
        }
        assert(only_markers_purged(mid, b, config@, toplevel@, views(chosen@), exact));
        assert(lists_tombstones(mid, config@, toplevel@, v));
        assert(purged_wanted(
            mid,
            b,
            config@,
            toplevel@,
            wanted,
            views(removed->Ok_0@),
            exact,
        ));
    }
    removed
}

/// Whether the wanted ones of the tombstones in `a` were purged, which gave
/// `b` and the removed names.
pub open spec fn purged_wanted(
    a: FsState,
    b: FsState,
    c: ConfigView,
    toplevel: PathView,
    wanted: Seq<Seq<char>>,
    removed: Seq<Seq<char>>,
    exact: bool,
) -> bool {
    exists|v: Seq<TombstoneView>| #[trigger]
        lists_tombstones(a, c, toplevel, v) && only_markers_purged(
            a,
            b,
            c,
            toplevel,
            wanted_names(wanted, v),
            exact,
        ) && (exact ==> removed == wanted_names(wanted, v)) && forall|n: Seq<char>| #[trigger]
            removed.contains(n) ==> wanted_names(wanted, v).contains(n)
}

/// What a marker purge leaves alone: a subvolume that lies in no purged marker
/// is still there, unchanged.
pub proof fn law_purge_spares_the_rest(
    a: FsState,
    b: FsState,
    c: ConfigView,
    toplevel: PathView,
    names: Seq<Seq<char>>,
    p: PathView,
)
    requires
        only_markers_purged(a, b, c, toplevel, names, true),
        a.subvols.contains_key(p),
        forall|i: int| 0 <= i < names.len() ==> !within(p, toplevel.push(#[trigger] names[i])),
    ensures
        b.subvols.contains_key(p),
        b.subvols[p] == a.subvols[p],
{
    reveal(gone);
    let paths = child_paths(toplevel, names);
    if gone(a, paths, p) {
        let i = choose|i: int|
            0 <= i < paths.len() && a.subvols.contains_key(#[trigger] paths[i]) && within(
                p,
                paths[i],
            );
        assert(within(p, toplevel.push(names[i])));
    }
}

} // verus!
