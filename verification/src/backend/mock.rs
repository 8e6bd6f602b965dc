//! In-memory [`FileSystemBackend`].
//!
//! Tracks subvolumes and text files by absolute path. Plain directories are
//! not tracked; the paths passed to `create_dir_all` are recorded.

use vstd::prelude::*;
use vstd::string::*;

use crate::assoc::{
    lemma_found_finite, lemma_lookup_at, lemma_lookup_concat, lemma_lookup_index,
    lemma_lookup_none, lemma_lookup_push, lookup,
};
use crate::backend::{
    can_snapshot, describes, is_fs_fault, is_nested, outside, owned, path_views, renamed, vacant, with_copy,
    with_snapshot, with_subvolume, FileSystemBackend, FsState, Subvol, SubvolumeInfo,
};
use crate::error::{ErrorView, Result, RevenantError};
use crate::path::{
    lemma_path_less_irreflexive, lemma_path_less_total, lemma_path_less_transitive, path_less, is_child, lemma_moved_back,
    lemma_moved_within, lemma_within_comparable, lemma_within_self, moved, path_text, under, within,
    FsPath, PathView,
};
use crate::text::{cat2, cat3, views};

verus! {

/// The id of the first subvolume, as btrfs gives it.
pub const FIRST_ID: u64 = 256;

/// A path with what is tracked for it.
#[derive(Debug)]
pub struct MockEntry<T> {
    path: FsPath,
    value: T,
}

/// A tracked subvolume.
#[derive(Debug, Clone, Copy)]
pub struct MockSubvol {
    id: u64,
    record: Subvol,
}

/// Backend that keeps everything in memory.
#[derive(Debug)]
pub struct MockBackend {
    next_id: u64,
    subvols: Vec<MockEntry<MockSubvol>>,
    files: Vec<MockEntry<String>>,
    default_subvol: Option<FsPath>,
    created_dirs: Vec<FsPath>,
}

spec fn pairs<T>(v: Seq<MockEntry<T>>) -> Seq<(PathView, T)> {
    Seq::new(v.len(), |i: int| (v[i].path@, v[i].value))
}

spec fn subvol_map(t: Seq<(PathView, MockSubvol)>) -> Map<PathView, Subvol> {
    Map::new(|p: PathView| lookup(t, p) is Some, |p: PathView| lookup(t, p)->0.record)
}

spec fn id_map(t: Seq<(PathView, MockSubvol)>) -> Map<PathView, u64> {
    Map::new(|p: PathView| lookup(t, p) is Some, |p: PathView| lookup(t, p)->0.id)
}

spec fn file_map(t: Seq<(PathView, String)>) -> Map<PathView, Seq<char>> {
    Map::new(|p: PathView| lookup(t, p) is Some, |p: PathView| lookup(t, p)->0@)
}

/// Whether the file at `p` lies inside `root`, and in no nested subvolume
/// unless the whole tree is meant.
spec fn taken(st: FsState, root: PathView, p: PathView, whole: bool) -> bool {
    if whole {
        st.files.contains_key(p) && under(p, root)
    } else {
        owned(st, root, p)
    }
}

proof fn lemma_pairs_push<T>(v: Seq<MockEntry<T>>, e: MockEntry<T>)
    ensures
        pairs(v.push(e)) == pairs(v).push((e.path@, e.value)),
{
    assert(pairs(v.push(e)) =~= pairs(v).push((e.path@, e.value)));
}

fn find<T>(v: &Vec<MockEntry<T>>, path: &FsPath) -> (r: Option<usize>)
    ensures
        match r {
            Some(i) => i < v.len() && v[i as int].path@ == path@ && lookup(pairs(v@), path@)
                == Some(v[i as int].value) && forall|j: int|
                0 <= j < i ==> (#[trigger] pairs(v@)[j]).0 != path@,
            None => lookup(pairs(v@), path@) is None,
        },
{
    let mut i: usize = 0;
    while i < v.len()
        invariant
            i <= v.len(),
            forall|j: int| 0 <= j < i ==> (#[trigger] pairs(v@)[j]).0 != path@,
        decreases v.len() - i,
    {
        if v[i].path.same(path) {
            proof {
                lemma_lookup_at(pairs(v@), path@, i as int);
            }
            return Some(i);
        }
        i = i + 1;
    }
    proof {
        lemma_lookup_none(pairs(v@), path@);
    }
    None
}

/// Whether the entry at index `i` is the first one with its path.
fn is_first<T>(v: &Vec<MockEntry<T>>, i: usize) -> (r: bool)
    requires
        i < v.len(),
    ensures
        lookup(pairs(v@), v[i as int].path@) is Some,
        r ==> lookup(pairs(v@), v[i as int].path@) == Some(v[i as int].value),
        r ==> forall|j: int| 0 <= j < i ==> (#[trigger] pairs(v@)[j]).0 != v[i as int].path@,
        !r ==> exists|j: int| 0 <= j < i && (#[trigger] pairs(v@)[j]).0 == v[i as int].path@,
{
    proof {
        assert(pairs(v@)[i as int].0 == v@[i as int].path@);
        lemma_lookup_present(pairs(v@), v@[i as int].path@, i as int);
    }
    match find(v, &v[i].path) {
        Some(j) => {
            assert(pairs(v@)[j as int].0 == v@[i as int].path@);
            j == i
        },
        None => false,
    }
}

/// Whether some entry lies at `base` or inside it.
fn any_within<T>(v: &Vec<MockEntry<T>>, base: &FsPath) -> (r: bool)
    ensures
        r == exists|p: PathView| #[trigger] lookup(pairs(v@), p) is Some && within(p, base@),
{
    let mut i: usize = 0;
    while i < v.len()
        invariant
            i <= v.len(),
            forall|j: int| 0 <= j < i ==> !within((#[trigger] pairs(v@)[j]).0, base@),
        decreases v.len() - i,
    {
        if v[i].path.is_within(base) {
            proof {
                let p = v@[i as int].path@;
                assert(pairs(v@)[i as int].0 == p);
                if lookup(pairs(v@), p) is None {
                    lemma_lookup_present(pairs(v@), p, i as int);
                }
                assert(lookup(pairs(v@), p) is Some && within(p, base@));
            }
            return true;
        }
        i = i + 1;
    }
    proof {
        assert forall|p: PathView| #[trigger] lookup(pairs(v@), p) is Some implies !within(
            p,
            base@,
        ) by {
            let j = lemma_lookup_index(pairs(v@), p);
            assert(pairs(v@)[j].0 == p);
        }
    }
    false
}

/// Whether some entry lies strictly inside `base`.
fn any_under<T>(v: &Vec<MockEntry<T>>, base: &FsPath) -> (r: bool)
    ensures
        r == exists|p: PathView| #[trigger] lookup(pairs(v@), p) is Some && under(p, base@),
{
    let mut i: usize = 0;
    while i < v.len()
        invariant
            i <= v.len(),
            forall|j: int| 0 <= j < i ==> !under((#[trigger] pairs(v@)[j]).0, base@),
        decreases v.len() - i,
    {
        if v[i].path.is_under(base) {
            proof {
                let p = v@[i as int].path@;
                assert(pairs(v@)[i as int].0 == p);
                if lookup(pairs(v@), p) is None {
                    lemma_lookup_present(pairs(v@), p, i as int);
                }
                assert(lookup(pairs(v@), p) is Some && under(p, base@));
            }
            return true;
        }
        i = i + 1;
    }
    proof {
        assert forall|p: PathView| #[trigger] lookup(pairs(v@), p) is Some implies !under(
            p,
            base@,
        ) by {
            let j = lemma_lookup_index(pairs(v@), p);
            assert(pairs(v@)[j].0 == p);
        }
    }
    false
}

proof fn lemma_lookup_present<T>(t: Seq<(PathView, T)>, p: PathView, i: int)
    requires
        0 <= i < t.len(),
        t[i].0 == p,
    ensures
        lookup(t, p) is Some,
    decreases t.len(),
{
    if t[0].0 != p {
        assert(t.skip(1)[i - 1] == t[i]);
        lemma_lookup_present(t.skip(1), p, i - 1);
    }
}

/// The entries that lie neither at `base` nor inside it.
fn drop_within<T>(v: &mut Vec<MockEntry<T>>, base: &FsPath)
    ensures
        forall|p: PathView| #[trigger]
            lookup(pairs(final(v)@), p) == if within(p, base@) {
                None
            } else {
                lookup(pairs(old(v)@), p)
            },
{
    let ghost all = pairs(v@);
    let ghost mut n: int = 0;
    let mut out: Vec<MockEntry<T>> = Vec::new();
    proof {
        assert(all.skip(0) =~= all);
        assert(pairs(out@) =~= Seq::empty());
        assert(all.take(0) =~= Seq::empty());
    }
    while v.len() > 0
        invariant
            0 <= n <= all.len(),
            pairs(v@) == all.skip(n),
            forall|p: PathView| #[trigger]
                lookup(pairs(out@), p) == if within(p, base@) {
                    None
                } else {
                    lookup(all.take(n), p)
                },
        decreases v.len(),
    {
        let ghost before = v@;
        let e = v.remove(0);
        let ghost k = e.path@;
        let ghost x = e.value;
        proof {
            assert(pairs(before)[0] == (k, x));
            assert(pairs(before).len() == before.len());
            assert(n < all.len());
            assert(all.skip(n)[0] == all[n]);
            assert(pairs(v@) =~= pairs(before).skip(1));
            assert(all.skip(n).skip(1) =~= all.skip(n + 1));
            assert(all.take(n + 1) =~= all.take(n).push((k, x)));
            assert forall|p: PathView| #[trigger] lookup(all.take(n + 1), p) == if lookup(
                all.take(n),
                p,
            ) is Some {
                lookup(all.take(n), p)
            } else if k == p {
                Some(x)
            } else {
                None
            } by {
                lemma_lookup_push(all.take(n), k, x, p);
            }
        }
        if !e.path.is_within(base) {
            let ghost was = out@;
            proof {
                lemma_pairs_push(was, e);
                assert forall|p: PathView| #[trigger] lookup(pairs(was).push((k, x)), p)
                    == if within(p, base@) {
                    None
                } else {
                    lookup(all.take(n + 1), p)
                } by {
                    lemma_lookup_push(pairs(was), k, x, p);
                    assert(lookup(pairs(was), p) == if within(p, base@) {
                        None
                    } else {
                        lookup(all.take(n), p)
                    });
                }
            }
            out.push(e);
        }
        proof {
            n = n + 1;
        }
    }
    proof {
        assert(all.take(all.len() as int) =~= all);
        assert(pairs(v@).len() == 0);
        assert(n == all.len());
    }
    *v = out;
}

/// The entries that do not lie strictly inside `base`.
fn drop_under<T>(v: &mut Vec<MockEntry<T>>, base: &FsPath)
    ensures
        forall|p: PathView| #[trigger]
            lookup(pairs(final(v)@), p) == if under(p, base@) {
                None
            } else {
                lookup(pairs(old(v)@), p)
            },
{
    let ghost all = pairs(v@);
    let ghost mut n: int = 0;
    let mut out: Vec<MockEntry<T>> = Vec::new();
    proof {
        assert(all.skip(0) =~= all);
        assert(pairs(out@) =~= Seq::empty());
        assert(all.take(0) =~= Seq::empty());
    }
    while v.len() > 0
        invariant
            0 <= n <= all.len(),
            pairs(v@) == all.skip(n),
            forall|p: PathView| #[trigger]
                lookup(pairs(out@), p) == if under(p, base@) {
                    None
                } else {
                    lookup(all.take(n), p)
                },
        decreases v.len(),
    {
        let ghost before = v@;
        let e = v.remove(0);
        let ghost k = e.path@;
        let ghost x = e.value;
        proof {
            assert(pairs(before)[0] == (k, x));
            assert(pairs(before).len() == before.len());
            assert(n < all.len());
            assert(all.skip(n)[0] == all[n]);
            assert(pairs(v@) =~= pairs(before).skip(1));
            assert(all.skip(n).skip(1) =~= all.skip(n + 1));
            assert(all.take(n + 1) =~= all.take(n).push((k, x)));
            assert forall|p: PathView| #[trigger] lookup(all.take(n + 1), p) == if lookup(
                all.take(n),
                p,
            ) is Some {
                lookup(all.take(n), p)
            } else if k == p {
                Some(x)
            } else {
                None
            } by {
                lemma_lookup_push(all.take(n), k, x, p);
            }
        }
        if !e.path.is_under(base) {
            let ghost was = out@;
            proof {
                lemma_pairs_push(was, e);
                assert forall|p: PathView| #[trigger] lookup(pairs(was).push((k, x)), p)
                    == if under(p, base@) {
                    None
                } else {
                    lookup(all.take(n + 1), p)
                } by {
                    lemma_lookup_push(pairs(was), k, x, p);
                    assert(lookup(pairs(was), p) == if under(p, base@) {
                        None
                    } else {
                        lookup(all.take(n), p)
                    });
                }
            }
            out.push(e);
        }
        proof {
            n = n + 1;
        }
    }
    proof {
        assert(all.take(all.len() as int) =~= all);
        assert(pairs(v@).len() == 0);
        assert(n == all.len());
    }
    *v = out;
}

/// The entries that do not lie at `path`.
fn drop_at<T>(v: &mut Vec<MockEntry<T>>, path: &FsPath)
    ensures
        forall|p: PathView| #[trigger]
            lookup(pairs(final(v)@), p) == if p == path@ {
                None
            } else {
                lookup(pairs(old(v)@), p)
            },
{
    let ghost all = pairs(v@);
    let ghost mut n: int = 0;
    let mut out: Vec<MockEntry<T>> = Vec::new();
    proof {
        assert(all.skip(0) =~= all);
        assert(pairs(out@) =~= Seq::empty());
        assert(all.take(0) =~= Seq::empty());
    }
    while v.len() > 0
        invariant
            0 <= n <= all.len(),
            pairs(v@) == all.skip(n),
            forall|p: PathView| #[trigger]
                lookup(pairs(out@), p) == if p == path@ {
                    None
                } else {
                    lookup(all.take(n), p)
                },
        decreases v.len(),
    {
        let ghost before = v@;
        let e = v.remove(0);
        let ghost k = e.path@;
        let ghost x = e.value;
        proof {
            assert(pairs(before)[0] == (k, x));
            assert(pairs(before).len() == before.len());
            assert(n < all.len());
            assert(all.skip(n)[0] == all[n]);
            assert(pairs(v@) =~= pairs(before).skip(1));
            assert(all.skip(n).skip(1) =~= all.skip(n + 1));
            assert(all.take(n + 1) =~= all.take(n).push((k, x)));
            assert forall|p: PathView| #[trigger] lookup(all.take(n + 1), p) == if lookup(
                all.take(n),
                p,
            ) is Some {
                lookup(all.take(n), p)
            } else if k == p {
                Some(x)
            } else {
                None
            } by {
                lemma_lookup_push(all.take(n), k, x, p);
            }
        }
        if !e.path.same(path) {
            let ghost was = out@;
            proof {
                lemma_pairs_push(was, e);
                assert forall|p: PathView| #[trigger] lookup(pairs(was).push((k, x)), p) == if p
                    == path@ {
                    None
                } else {
                    lookup(all.take(n + 1), p)
                } by {
                    lemma_lookup_push(pairs(was), k, x, p);
                    assert(lookup(pairs(was), p) == if p == path@ {
                        None
                    } else {
                        lookup(all.take(n), p)
                    });
                }
            }
            out.push(e);
        }
        proof {
            n = n + 1;
        }
    }
    proof {
        assert(all.take(all.len() as int) =~= all);
        assert(pairs(v@).len() == 0);
        assert(n == all.len());
    }
    *v = out;
}

/// Moves the entries at `from` or inside it to `to`, in place of what lies
/// there.
fn move_within<T>(v: &mut Vec<MockEntry<T>>, from: &FsPath, to: &FsPath)
    requires
        !within(to@, from@),
        !within(from@, to@),
    ensures
        forall|p: PathView| #[trigger]
            lookup(pairs(final(v)@), p) == if within(p, to@) {
                lookup(pairs(old(v)@), moved(p, to@, from@))
            } else if within(p, from@) {
                None
            } else {
                lookup(pairs(old(v)@), p)
            },
{
    drop_within(v, to);
    let ghost all = pairs(v@);
    let ghost mut n: int = 0;
    let mut out: Vec<MockEntry<T>> = Vec::new();
    proof {
        assert(all.skip(0) =~= all);
        assert(pairs(out@) =~= Seq::empty());
        assert(all.take(0) =~= Seq::empty());
        assert forall|p: PathView| #[trigger] within(p, to@) implies lookup(all, p) is None by {}
    }
    while v.len() > 0
        invariant
            !within(to@, from@),
            !within(from@, to@),
            0 <= n <= all.len(),
            pairs(v@) == all.skip(n),
            forall|p: PathView| #[trigger] within(p, to@) ==> lookup(all, p) is None,
            forall|p: PathView| #[trigger]
                lookup(pairs(out@), p) == if within(p, to@) {
                    lookup(all.take(n), moved(p, to@, from@))
                } else if within(p, from@) {
                    None
                } else {
                    lookup(all.take(n), p)
                },
        decreases v.len(),
    {
        let ghost before = v@;
        let mut e = v.remove(0);
        let ghost k = e.path@;
        let ghost x = e.value;
        proof {
            assert(pairs(before)[0] == (k, x));
            assert(pairs(before).len() == before.len());
            assert(n < all.len());
            assert(all.skip(n)[0] == all[n]);
            assert(pairs(v@) =~= pairs(before).skip(1));
            assert(all.skip(n).skip(1) =~= all.skip(n + 1));
            assert(all.take(n + 1) =~= all.take(n).push((k, x)));
            if within(k, to@) {
                lemma_lookup_present(all, k, n);
            }
            assert forall|p: PathView| #[trigger] lookup(all.take(n + 1), p) == if lookup(
                all.take(n),
                p,
            ) is Some {
                lookup(all.take(n), p)
            } else if k == p {
                Some(x)
            } else {
                None
            } by {
                lemma_lookup_push(all.take(n), k, x, p);
            }
        }
        let ghost was = out@;
        if e.path.is_within(from) {
            let np = e.path.rebase(from, to);
            e.path = np;
        }
        let ghost nk = e.path@;
        proof {
            lemma_pairs_push(was, e);
            assert forall|p: PathView| #[trigger] lookup(pairs(was).push((nk, x)), p) == if within(
                p,
                to@,
            ) {
                lookup(all.take(n + 1), moved(p, to@, from@))
            } else if within(p, from@) {
                None
            } else {
                lookup(all.take(n + 1), p)
            } by {
                lemma_lookup_push(pairs(was), nk, x, p);
                assert(lookup(pairs(was), p) == if within(p, to@) {
                    lookup(all.take(n), moved(p, to@, from@))
                } else if within(p, from@) {
                    None
                } else {
                    lookup(all.take(n), p)
                });
                let q = moved(p, to@, from@);
                if within(p, to@) {
                    lemma_moved_back(p, to@, from@);
                    if within(k, from@) {
                        lemma_moved_back(k, from@, to@);
                        lemma_moved_within(q, k, from@, to@);
                    } else {
                        assert(nk == k && k != p && k != q);
                    }
                    assert((nk == p) == (k == q));
                    assert(lookup(all.take(n + 1), q) == if lookup(all.take(n), q) is Some {
                        lookup(all.take(n), q)
                    } else if k == q {
                        Some(x)
                    } else {
                        None
                    });
                } else {
                    if within(k, from@) {
                        lemma_moved_back(k, from@, to@);
                        assert(nk != p);
                    } else {
                        assert(nk == k);
                    }
                    assert(lookup(all.take(n + 1), p) == if lookup(all.take(n), p) is Some {
                        lookup(all.take(n), p)
                    } else if k == p {
                        Some(x)
                    } else {
                        None
                    });
                }
            }
        }
        out.push(e);
        proof {
            n = n + 1;
        }
    }
    proof {
        assert(all.take(all.len() as int) =~= all);
        assert(pairs(v@).len() == 0);
        assert(n == all.len());
        assert forall|p: PathView| #[trigger] lookup(pairs(out@), p) == if within(p, to@) {
            lookup(pairs(old(v)@), moved(p, to@, from@))
        } else if within(p, from@) {
            None
        } else {
            lookup(pairs(old(v)@), p)
        } by {
            if within(p, to@) {
                let q = moved(p, to@, from@);
                lemma_moved_back(p, to@, from@);
                if within(q, to@) {
                    lemma_within_comparable(q, to@, from@);
                }
                assert(lookup(all, q) == lookup(pairs(old(v)@), q));
            } else {
                assert(lookup(all, p) == lookup(pairs(old(v)@), p));
            }
        }
    }
    *v = out;
}

impl Default for MockBackend {
    fn default() -> (r: Self)
        ensures
            r.reliable(),
            r.state().subvols =~= Map::empty(),
            r.state().files =~= Map::empty(),
            r.state().default_subvol is None,
            r.dirs() =~= Seq::empty(),
            r.ids() =~= Map::empty(),
            r.fresh_id() == FIRST_ID,
    {
        MockBackend::new()
    }
}

/// Calls `uuid::Uuid::new_v4`: a random UUID. Nothing is claimed of it.
#[verifier::external_body]
fn random_uuid() -> (r: u128) {
    uuid::Uuid::new_v4().as_u128()
}

/// The paths of some subvolumes.
pub open spec fn listed_paths(v: Seq<SubvolumeInfo>) -> Seq<PathView> {
    Seq::new(v.len(), |i: int| v[i].path@)
}

/// Whether the paths are in order, none of them twice.
pub open spec fn paths_ascend(v: Seq<PathView>) -> bool {
    forall|i: int, j: int| 0 <= i < j < v.len() ==> path_less(#[trigger] v[i], #[trigger] v[j])
}

/// Inserting a path where it belongs keeps the order.
proof fn lemma_path_inserted(v: Seq<PathView>, p: PathView, k: int)
    requires
        paths_ascend(v),
        0 <= k <= v.len(),
        forall|j: int| 0 <= j < k ==> path_less(#[trigger] v[j], p),
        k < v.len() ==> !path_less(v[k], p) && v[k] != p,
    ensures
        paths_ascend(v.insert(k, p)),
        forall|q: PathView| #[trigger] v.insert(k, p).contains(q) <==> v.contains(q) || q == p,
{
    let w = v.insert(k, p);
    if k < v.len() {
        lemma_path_less_total(v[k], p);
    }
    assert forall|i: int, j: int| 0 <= i < j < w.len() implies path_less(
        #[trigger] w[i],
        #[trigger] w[j],
    ) by {
        if i == k {
            assert(w[j] == v[j - 1]);
            if j - 1 > k {
                lemma_path_less_transitive(p, v[k], v[j - 1]);
            }
        } else if j == k {
            assert(w[i] == v[i]);
        } else {
            let x = if i < k {
                i
            } else {
                i - 1
            };
            let y = if j < k {
                j
            } else {
                j - 1
            };
            assert(w[i] == v[x] && w[j] == v[y]);
        }
    }
    assert forall|q: PathView| #[trigger] w.contains(q) <==> v.contains(q) || q == p by {
        if v.contains(q) {
            let i = choose|i: int| 0 <= i < v.len() && v[i] == q;
            if i < k {
                assert(w[i] == q);
            } else {
                assert(w[i + 1] == q);
            }
        }
        if w.contains(q) && q != p {
            let i = choose|i: int| 0 <= i < w.len() && w[i] == q;
            if i < k {
                assert(v[i] == q);
            } else {
                assert(v[i - 1] == q);
            }
        }
        assert(w[k] == p);
    }
}

/// Whether `b` has recorded the same directories and given the same ids.
pub open spec fn same_records(a: MockBackend, b: MockBackend) -> bool {
    &&& b.dirs() == a.dirs()
    &&& b.ids() == a.ids()
    &&& b.fresh_id() == a.fresh_id()
}

/// Whether `b` is `a` after the next id went to the subvolume at `path`. The
/// ids start again from zero after the last.
pub open spec fn id_given(a: MockBackend, b: MockBackend, path: PathView) -> bool {
    &&& b.dirs() == a.dirs()
    &&& b.ids() == a.ids().insert(path, a.fresh_id())
    &&& b.fresh_id() == if a.fresh_id() == u64::MAX {
        0
    } else {
        a.fresh_id() + 1
    }
}

impl MockBackend {
    /// The ids of the subvolumes.
    pub closed spec fn ids(&self) -> Map<PathView, u64> {
        id_map(pairs(self.subvols@))
    }

    /// The id that the next subvolume gets.
    pub closed spec fn fresh_id(&self) -> u64 {
        self.next_id
    }

    closed spec fn subs(&self) -> Seq<(PathView, MockSubvol)> {
        pairs(self.subvols@)
    }

    /// An empty filesystem.
    #[must_use]
    pub fn new() -> (r: Self)
        ensures
            r.reliable(),
            r.state().subvols =~= Map::empty(),
            r.state().files =~= Map::empty(),
            r.state().default_subvol is None,
            r.dirs() =~= Seq::empty(),
            r.ids() =~= Map::empty(),
            r.fresh_id() == FIRST_ID,
    {
        MockBackend {
            next_id: FIRST_ID,
            subvols: Vec::new(),
            files: Vec::new(),
            default_subvol: None,
            created_dirs: Vec::new(),
        }
    }

    /// Track a subvolume at `path`, in place of one that was there.
    pub fn seed_subvolume(&mut self, path: &FsPath)
        ensures
            final(self).reliable(),
            exists|uuid: u128|
                final(self).state() == #[trigger] with_subvolume(old(self).state(), path@, uuid),
            id_given(*old(self), *final(self), path@),
    {
        let record = Subvol { uuid: random_uuid(), parent_uuid: None, readonly: false };
        let ghost before = self.state();
        self.track(path, record);
        assert(self.state() == with_subvolume(before, path@, record.uuid));
    }

    /// Track `record` at `path`, in place of what was there.
    fn track(&mut self, path: &FsPath, record: Subvol) -> (id: u64)
        ensures
            final(self).state().subvols == old(self).state().subvols.insert(path@, record),
            final(self).state().files == old(self).state().files,
            final(self).state().default_subvol == old(self).state().default_subvol,
            id_given(*old(self), *final(self), path@),
            id == old(self).fresh_id(),
    {
        let id: u64 = self.next_id;
        self.next_id = self.next_id.wrapping_add(1);
        let ghost all = pairs(self.subvols@);
        let value = MockSubvol { id, record };
        match find(&self.subvols, path) {
            Some(i) => {
                let entry = MockEntry { path: path.clone(), value };
                let ghost before = self.subvols@;
                self.subvols.set(i, entry);
                proof {
                    assert(pairs(self.subvols@) =~= all.update(i as int, (path@, value)));
                    assert forall|p: PathView| #[trigger] lookup(
                        all.update(i as int, (path@, value)),
                        p,
                    ) == if p == path@ {
                        Some(value)
                    } else {
                        lookup(all, p)
                    } by {
                        lemma_lookup_update(all, path@, value, i as int, p);
                    }
                }
            },
            None => {
                let entry = MockEntry { path: path.clone(), value };
                let ghost before = self.subvols@;
                self.subvols.push(entry);
                proof {
                    lemma_pairs_push(before, entry);
                    assert forall|p: PathView| #[trigger] lookup(pairs(self.subvols@), p) == if p
                        == path@ {
                        Some(value)
                    } else {
                        lookup(all, p)
                    } by {
                        lemma_lookup_push(all, path@, value, p);
                    }
                }
            },
        }
        proof {
            assert(self.state().subvols =~= old(self).state().subvols.insert(path@, record));
            assert(self.ids() =~= old(self).ids().insert(path@, id));
        }
        id
    }

    /// The paths of all subvolumes, in order.
    pub fn all_paths(&self) -> (r: Vec<FsPath>)
        ensures
            forall|p: PathView|
                path_views(r@).contains(p) <==> #[trigger] self.state().subvols.contains_key(p),
            paths_ascend(path_views(r@)),
    {
        let mut out: Vec<FsPath> = Vec::new();
        let ghost all = self.subs();
        let mut i: usize = 0;
        while i < self.subvols.len()
            invariant
                i <= self.subvols.len(),
                all == pairs(self.subvols@),
                forall|p: PathView|
                    path_views(out@).contains(p) <==> exists|k: int|
                        0 <= k < i && (#[trigger] all[k]).0 == p,
                paths_ascend(path_views(out@)),
            decreases self.subvols.len() - i,
        {
            let path = &self.subvols[i].path;
            let ghost before = path_views(out@);
            let mut k: usize = 0;
            while k < out.len() && out[k].precedes(path)
                invariant
                    k <= out.len(),
                    before == path_views(out@),
                    forall|j: int| 0 <= j < k ==> path_less(#[trigger] before[j], path@),
                decreases out.len() - k,
            {
                assert(before[k as int] == out@[k as int]@);
                k = k + 1;
            }
            if k < out.len() && out[k].same(path) {
                proof {
                    assert(before[k as int] == path@);
                    assert forall|p: PathView| before.contains(p) <==> exists|m: int|
                        0 <= m < i + 1 && (#[trigger] all[m]).0 == p by {
                        if p == path@ {
                            assert(all[i as int].0 == p);
                        }
                    }
                }
            } else {
                proof {
                    if k < out.len() {
                        assert(before[k as int] == out@[k as int]@);
                    }
                    lemma_path_inserted(before, path@, k as int);
                    assert forall|p: PathView| before.insert(
                        k as int,
                        path@,
                    ).contains(p) <==> exists|m: int|
                        0 <= m < i + 1 && (#[trigger] all[m]).0 == p by {
                        if p == path@ {
                            assert(all[i as int].0 == p);
                            assert(before.insert(k as int, path@)[k as int] == p);
                        }
                    }
                }
                out.insert(k, path.clone());
                assert(path_views(out@) =~= before.insert(k as int, path@));
            }
            i = i + 1;
        }
        proof {
            assert forall|p: PathView|
                path_views(out@).contains(p) <==> #[trigger] self.state().subvols.contains_key(
                    p,
                ) by {
                if self.state().subvols.contains_key(p) {
                    let k = crate::assoc::lemma_lookup_index(all, p);
                    assert(all[k].0 == p);
                }
                if path_views(out@).contains(p) && lookup(all, p) is None {
                    crate::assoc::lemma_lookup_absent(all, p);
                }
            }
        }
        out
    }

    /// Whether the given path is currently tracked as a subvolume.
    pub fn contains(&self, path: &FsPath) -> (r: bool)
        ensures
            r == self.state().subvols.contains_key(path@),
    {
        find(&self.subvols, path).is_some()
    }

    /// The path most recently passed to `set_default_subvolume`, if any.
    pub fn default_subvolume(&self) -> (r: Option<FsPath>)
        ensures
            match r {
                Some(p) => self.state().default_subvol == Some(p@),
                None => self.state().default_subvol is None,
            },
    {
        match &self.default_subvol {
            Some(p) => Some(p.clone()),
            None => None,
        }
    }

    /// The paths that were passed to `create_dir_all`, in call order.
    pub closed spec fn dirs(&self) -> Seq<PathView> {
        path_views(self.created_dirs@)
    }

    /// The paths that were passed to `create_dir_all`, in call order.
    pub fn created_dirs(&self) -> (r: &Vec<FsPath>)
        ensures
            path_views(r@) == self.dirs(),
    {
        &self.created_dirs
    }

    fn info(&self, path: &FsPath, s: &MockSubvol) -> (r: SubvolumeInfo)
        ensures
            r.path@ == path@,
            r.record() == s.record,
            r.parent_id == 5,
            r.id == s.id,
    {
        SubvolumeInfo {
            id: s.id,
            parent_id: 5,
            path: path.clone(),
            uuid: s.record.uuid,
            parent_uuid: s.record.parent_uuid,
            readonly: s.record.readonly,
        }
    }

    fn is_vacant(&self, path: &FsPath) -> (r: bool)
        ensures
            r == vacant(self.state(), path@),
    {
        let a: bool = any_within(&self.subvols, path);
        let b: bool = any_within(&self.files, path);
        proof {
            let st = self.state();
            if a {
                let p = choose|p: PathView| #[trigger]
                    lookup(pairs(self.subvols@), p) is Some && within(p, path@);
                assert(st.subvols.contains_key(p));
            } else if b {
                let p = choose|p: PathView| #[trigger]
                    lookup(pairs(self.files@), p) is Some && within(p, path@);
                assert(st.files.contains_key(p));
            } else {
                assert forall|q: PathView| #[trigger] st.subvols.contains_key(q) implies !within(
                    q,
                    path@,
                ) by {
                    assert(lookup(pairs(self.subvols@), q) is Some);
                }
                assert forall|q: PathView| #[trigger] st.files.contains_key(q) implies !within(
                    q,
                    path@,
                ) by {
                    assert(lookup(pairs(self.files@), q) is Some);
                }
            }
        }
        !a && !b
    }

    /// Whether the file at `path` belongs to the subvolume at `root` itself.
    fn owns(&self, root: &FsPath, path: &FsPath) -> (r: bool)
        requires
            self.state().files.contains_key(path@),
        ensures
            r == owned(self.state(), root@, path@),
    {
        if !path.is_under(root) {
            return false;
        }
        let mut i: usize = 0;
        while i < self.subvols.len()
            invariant
                i <= self.subvols.len(),
                forall|j: int|
                    0 <= j < i ==> !(under((#[trigger] pairs(self.subvols@)[j]).0, root@)
                        && within(path@, pairs(self.subvols@)[j].0)),
            decreases self.subvols.len() - i,
        {
            if self.subvols[i].path.is_under(root) && path.is_within(&self.subvols[i].path) {
                proof {
                    let q = self.subvols@[i as int].path@;
                    lemma_lookup_present(pairs(self.subvols@), q, i as int);
                    assert(self.state().subvols.contains_key(q));
                }
                return false;
            }
            i = i + 1;
        }
        proof {
            assert forall|q: PathView| #[trigger]
                self.state().subvols.contains_key(q) && under(q, root@) implies !within(
                path@,
                q,
            ) by {
                let j = lemma_lookup_index(pairs(self.subvols@), q);
                assert(pairs(self.subvols@)[j].0 == q);
            }
        }
        true
    }

    /// The files inside `source`, or those of the subvolume there itself,
    /// placed under `dest`.
    fn copies(&self, source: &FsPath, dest: &FsPath, whole: bool) -> (out: Vec<MockEntry<String>>)
        ensures
            forall|p: PathView| #[trigger]
                lookup(pairs(out@), p) is Some <==> within(p, dest@) && taken(
                    self.state(),
                    source@,
                    moved(p, dest@, source@),
                    whole,
                ),
            forall|p: PathView| #[trigger]
                lookup(pairs(out@), p) is Some ==> lookup(pairs(out@), p)->0@
                    == self.state().files[moved(p, dest@, source@)],
    {
        let ghost all = pairs(self.files@);
        let ghost st = self.state();
        let mut out: Vec<MockEntry<String>> = Vec::new();
        let mut i: usize = 0;
        proof {
            assert(pairs(out@) =~= Seq::empty());
            assert(all.take(0) =~= Seq::empty());
        }
        while i < self.files.len()
            invariant
                i <= self.files.len(),
                all == pairs(self.files@),
                st == self.state(),
                forall|p: PathView| #[trigger]
                    lookup(pairs(out@), p) is Some <==> within(p, dest@) && taken(
                        st,
                        source@,
                        moved(p, dest@, source@),
                        whole,
                    ) && lookup(all.take(i as int), moved(p, dest@, source@)) is Some,
                forall|p: PathView| #[trigger]
                    lookup(pairs(out@), p) is Some ==> lookup(pairs(out@), p)->0@ == lookup(
                        all.take(i as int),
                        moved(p, dest@, source@),
                    )->0@,
            decreases self.files.len() - i,
        {
            let ghost k = self.files@[i as int].path@;
            let ghost was = out@;
            proof {
                assert(all[i as int] == (k, self.files@[i as int].value));
                lemma_lookup_present(all, k, i as int);
                assert(st.files.contains_key(k));
                assert(all.take(i + 1) =~= all.take(i as int).push(
                    (k, self.files@[i as int].value),
                ));
                assert forall|p: PathView| #[trigger] lookup(all.take(i + 1), p) == if lookup(
                    all.take(i as int),
                    p,
                ) is Some {
                    lookup(all.take(i as int), p)
                } else if k == p {
                    Some(self.files@[i as int].value)
                } else {
                    None
                } by {
                    lemma_lookup_push(all.take(i as int), k, self.files@[i as int].value, p);
                }
            }
            let mine: bool = if whole {
                self.files[i].path.is_under(source)
            } else {
                self.owns(source, &self.files[i].path)
            };
            if mine {
                proof {
                    lemma_within_self(k, source@);
                }
                let np = self.files[i].path.rebase(source, dest);
                let entry = MockEntry { path: np, value: self.files[i].value.clone() };
                let ghost nk = entry.path@;
                let ghost x = entry.value;
                proof {
                    lemma_pairs_push(was, entry);
                    lemma_moved_back(k, source@, dest@);
                    assert forall|p: PathView|
                        #![trigger lookup(pairs(was).push((nk, x)), p)]
                        {
                            let q = moved(p, dest@, source@);
                            &&& lookup(pairs(was).push((nk, x)), p) is Some <==> within(p, dest@)
                                && taken(st, source@, q, whole) && lookup(all.take(i + 1), q) is Some
                            &&& lookup(pairs(was).push((nk, x)), p) is Some ==> lookup(
                                pairs(was).push((nk, x)),
                                p,
                            )->0@ == lookup(all.take(i + 1), q)->0@
                        } by {
                        let q = moved(p, dest@, source@);
                        lemma_lookup_push(pairs(was), nk, x, p);
                        assert(lookup(all.take(i + 1), q) == if lookup(
                            all.take(i as int),
                            q,
                        ) is Some {
                            lookup(all.take(i as int), q)
                        } else if k == q {
                            Some(self.files@[i as int].value)
                        } else {
                            None
                        });
                        assert(lookup(pairs(was), p) is Some <==> within(p, dest@) && taken(
                            st,
                            source@,
                            q,
                            whole,
                        ) && lookup(all.take(i as int), q) is Some);
                        if within(p, dest@) {
                            lemma_moved_back(p, dest@, source@);
                            assert((nk == p) == (k == q));
                        }
                    }
                }
                out.push(entry);
            } else {
                proof {
                    assert forall|p: PathView| #[trigger] lookup(pairs(out@), p) is Some
                        <==> within(p, dest@) && taken(st, source@, moved(p, dest@, source@), whole)
                        && lookup(all.take(i + 1), moved(p, dest@, source@)) is Some by {
                        let q = moved(p, dest@, source@);
                        assert(lookup(all.take(i + 1), q) == if lookup(
                            all.take(i as int),
                            q,
                        ) is Some {
                            lookup(all.take(i as int), q)
                        } else if k == q {
                            Some(self.files@[i as int].value)
                        } else {
                            None
                        });
                    }
                    assert forall|p: PathView| #[trigger] lookup(pairs(out@), p) is Some
                        implies lookup(pairs(out@), p)->0@ == lookup(
                        all.take(i + 1),
                        moved(p, dest@, source@),
                    )->0@ by {
                        let q = moved(p, dest@, source@);
                        assert(lookup(all.take(i + 1), q) == lookup(all.take(i as int), q));
                    }
                }
            }
            i = i + 1;
        }
        proof {
            assert(all.take(all.len() as int) =~= all);
        }
        out
    }

    fn snapshot(&mut self, source: &FsPath, dest: &FsPath, readonly: bool) -> (r: Result<
        SubvolumeInfo,
    >)
        ensures
            r matches Ok(i) ==> can_snapshot(old(self).state(), source@, dest@) && final(
                self).state() == with_snapshot(old(self).state(), source@, dest@, i.uuid, readonly)
                && describes(final(self).state(), dest@, i),
            r is Err ==> final(self).state() == old(self).state(),
            r matches Ok(i) ==> id_given(*old(self), *final(self), dest@) && i.id == old(
                self,
            ).fresh_id() && i.parent_id == 5,
            r is Err ==> same_records(*old(self), *final(self)),
            r matches Err(e) ==> is_fs_fault(e@),
            can_snapshot(old(self).state(), source@, dest@) ==> r is Ok,
            !old(self).state().subvols.contains_key(source@) ==> (r matches Err(e) && e@
                == ErrorView::SubvolumeNotFound(path_text(source@))),
    {
        let parent: u128 = match find(&self.subvols, source) {
            Some(i) => self.subvols[i].value.record.uuid,
            None => {
                return Err(RevenantError::SubvolumeNotFound(source.display()));
            },
        };
        if !self.is_vacant(dest) {
            return Err(
                RevenantError::Other(
                    cat2("destination already exists: ", dest.display().as_str()),
                ),
            );
        }
        let ghost st = self.state();
        let mut extra = self.copies(source, dest, false);
        let record = Subvol { uuid: random_uuid(), parent_uuid: Some(parent), readonly };
        let ghost all = pairs(self.files@);
        let ghost more = pairs(extra@);
        self.files.append(&mut extra);
        proof {
            assert(pairs(self.files@) =~= all + more);
            assert forall|p: PathView| #[trigger] lookup(all + more, p) == if lookup(all, p)
                is Some {
                lookup(all, p)
            } else {
                lookup(more, p)
            } by {
                lemma_lookup_concat(all, more, p);
            }
            assert forall|p: PathView| within(p, dest@) implies #[trigger] lookup(all, p)
                is None by {
                if lookup(all, p) is Some {
                    assert(st.files.contains_key(p));
                }
            }
            assert(self.state().files =~= with_copy(st, source@, dest@));
            assert(self.state().subvols =~= st.subvols);
        }
        let id: u64 = self.track(dest, record);
        Ok(self.info(dest, &MockSubvol { id, record }))
    }
}

proof fn lemma_lookup_update<T>(t: Seq<(PathView, T)>, k: PathView, v: T, i: int, p: PathView)
    requires
        0 <= i < t.len(),
        t[i].0 == k,
        lookup(t, k) is Some,
        forall|j: int| 0 <= j < i ==> (#[trigger] t[j]).0 != k,
    ensures
        lookup(t.update(i, (k, v)), p) == if p == k {
            Some(v)
        } else {
            lookup(t, p)
        },
    decreases i,
{
    let u = t.update(i, (k, v));
    if i == 0 {
        assert(u.skip(1) =~= t.skip(1));
    } else {
        assert(u[0] == t[0]);
        if t[0].0 != p {
            assert(u.skip(1) =~= t.skip(1).update(i - 1, (k, v)));
            assert(t.skip(1)[i - 1] == t[i]);
            assert forall|j: int| 0 <= j < i - 1 implies (#[trigger] t.skip(1)[j]).0 != k by {
                assert(t.skip(1)[j] == t[j + 1]);
            }
            lemma_lookup_update(t.skip(1), k, v, i - 1, p);
        }
    }
}

/// Inserts a subvolume where its path belongs, and says where that is.
fn insert_listed(v: &mut Vec<SubvolumeInfo>, info: SubvolumeInfo) -> (at: usize)
    requires
        paths_ascend(listed_paths(old(v)@)),
        forall|k: int|
            0 <= k < old(v)@.len() ==> (#[trigger] old(v)@[k]).path@ != info.path@,
    ensures
        at <= old(v)@.len(),
        final(v)@ == old(v)@.insert(at as int, info),
        paths_ascend(listed_paths(final(v)@)),
{
    let ghost before = listed_paths(v@);
    let ghost was = v@;
    let mut at: usize = 0;
    while at < v.len() && v[at].path.precedes(&info.path)
        invariant
            at <= v.len(),
            was == v@,
            before == listed_paths(v@),
            forall|j: int| 0 <= j < at ==> path_less(#[trigger] before[j], info.path@),
        decreases v.len() - at,
    {
        assert(before[at as int] == v@[at as int].path@);
        at = at + 1;
    }
    proof {
        if at < v.len() {
            assert(before[at as int] == v@[at as int].path@);
        }
        lemma_path_inserted(before, info.path@, at as int);
        assert(listed_paths(was.insert(at as int, info)) =~= before.insert(at as int, info.path@));
    }
    v.insert(at, info);
    at
}

/// What a listing keeps when the next subvolume is inserted.
proof fn lemma_listed(
    was: Seq<SubvolumeInfo>,
    now: Seq<SubvolumeInfo>,
    info: SubvolumeInfo,
    at: int,
    all: Seq<(PathView, MockSubvol)>,
    i: int,
    root: PathView,
)
    requires
        0 <= at <= was.len(),
        now == was.insert(at, info),
        0 <= i < all.len(),
        info.path@ == all[i].0,
        forall|k: int|
            0 <= k < was.len() ==> exists|j: int|
                0 <= j < i && (#[trigger] was[k]).path@ == (#[trigger] all[j]).0,
        forall|j: int|
            0 <= j < i && is_child((#[trigger] all[j]).0, root) ==> exists|k: int|
                0 <= k < was.len() && (#[trigger] was[k]).path@ == all[j].0,
        paths_ascend(listed_paths(now)),
    ensures
        forall|k: int| 0 <= k < now.len() ==> #[trigger] now[k] == info || was.contains(now[k]),
        forall|k: int|
            0 <= k < now.len() ==> exists|j: int|
                0 <= j < i + 1 && (#[trigger] now[k]).path@ == (#[trigger] all[j]).0,
        forall|j: int|
            0 <= j < i + 1 && is_child((#[trigger] all[j]).0, root) ==> exists|k: int|
                0 <= k < now.len() && (#[trigger] now[k]).path@ == all[j].0,
        forall|k: int, l: int|
            0 <= k < l < now.len() ==> (#[trigger] now[k]).path@ != (#[trigger] now[l]).path@,
{
    assert forall|k: int| 0 <= k < now.len() implies (#[trigger] now[k] == info || was.contains(
        now[k],
    )) && exists|j: int| 0 <= j < i + 1 && now[k].path@ == (#[trigger] all[j]).0 by {
        if k == at {
            assert(now[k].path@ == all[i].0);
        } else {
            let m = if k < at {
                k
            } else {
                k - 1
            };
            assert(now[k] == was[m]);
            let j = choose|j: int| 0 <= j < i && was[m].path@ == (#[trigger] all[j]).0;
            assert(now[k].path@ == all[j].0);
        }
    }
    assert forall|j: int| 0 <= j < i + 1 && is_child((#[trigger] all[j]).0, root) implies exists|
        k: int,
    |
        0 <= k < now.len() && (#[trigger] now[k]).path@ == all[j].0 by {
        if j < i {
            let k = choose|k: int| 0 <= k < was.len() && (#[trigger] was[k]).path@ == all[j].0;
            if k < at {
                assert(now[k] == was[k]);
            } else {
                assert(now[k + 1] == was[k]);
            }
        } else {
            assert(now[at].path@ == all[j].0);
        }
    }
    assert forall|k: int, l: int| 0 <= k < l < now.len() implies (#[trigger] now[k]).path@ != (
    #[trigger] now[l]).path@ by {
        let v = listed_paths(now);
        assert(path_less(v[k], v[l]));
        lemma_path_less_irreflexive(v[k]);
    }
}

impl FileSystemBackend for MockBackend {
    closed spec fn state(&self) -> FsState {
        FsState {
            subvols: subvol_map(pairs(self.subvols@)),
            files: file_map(pairs(self.files@)),
            default_subvol: match self.default_subvol {
                Some(p) => Some(p@),
                None => None,
            },
        }
    }

    closed spec fn directories(&self) -> Set<PathView> {
        Set::new(
            |d: PathView|
                exists|i: int| 0 <= i < self.dirs().len() && within(#[trigger] self.dirs()[i], d),
        )
    }

    open spec fn reliable(&self) -> bool {
        true
    }

    fn probe(&self, path: &FsPath) -> (r: Result<bool>)
        ensures
            r == Ok::<bool, RevenantError>(true),
    {
        Ok(true)
    }

    fn list_subvolumes(&self, root: &FsPath) -> (r: Result<Vec<SubvolumeInfo>>)
        ensures
            r matches Ok(v) ==> forall|k: int|
                0 <= k < v@.len() ==> (#[trigger] v@[k]).id == self.ids()[v@[k].path@]
                    && v@[k].parent_id == 5,
            r matches Ok(v) ==> paths_ascend(listed_paths(v@)),
    {
        let mut out: Vec<SubvolumeInfo> = Vec::new();
        let ghost all = pairs(self.subvols@);
        let mut i: usize = 0;
        while i < self.subvols.len()
            invariant
                i <= self.subvols.len(),
                all == pairs(self.subvols@),
                forall|k: int|
                    0 <= k < out.len() ==> is_child((#[trigger] out[k]).path@, root@) && describes(
                        self.state(),
                        out[k].path@,
                        out[k],
                    ),
                forall|k: int|
                    0 <= k < out.len() ==> (#[trigger] out[k]).id == self.ids()[out[k].path@]
                        && out[k].parent_id == 5,
                forall|k: int|
                    0 <= k < out.len() ==> exists|j: int|
                        0 <= j < i && (#[trigger] out[k]).path@ == (#[trigger] all[j]).0,
                forall|j: int|
                    0 <= j < i && is_child((#[trigger] all[j]).0, root@) ==> exists|k: int|
                        0 <= k < out.len() && (#[trigger] out[k]).path@ == all[j].0,
                forall|k: int, l: int|
                    0 <= k < l < out.len() ==> (#[trigger] out[k]).path@ != (
                    #[trigger] out[l]).path@,
                paths_ascend(listed_paths(out@)),
            decreases self.subvols.len() - i,
        {
            let path = &self.subvols[i].path;
            let ghost old_out = out@;
            assert(all[i as int].0 == path@);
            let first: bool = is_first(&self.subvols, i);
            if path.is_child_of(root) && first {
                let info = self.info(path, &self.subvols[i].value);
                proof {
                    assert(describes(self.state(), info.path@, info));
                    assert forall|k: int| 0 <= k < out.len() implies (#[trigger] out[k]).path@
                        != info.path@ by {
                        let j = choose|j: int|
                            0 <= j < i && out[k].path@ == (#[trigger] all[j]).0;
                        assert(all[j].0 != path@);
                    }
                }
                let at: usize = insert_listed(&mut out, info);
                proof {
                    lemma_listed(old_out, out@, info, at as int, all, i as int, root@);
                }
            } else {
                proof {
                    if is_child(all[i as int].0, root@) {
                        let j = choose|j: int|
                            0 <= j < i && (#[trigger] all[j]).0 == path@;
                        assert(all[j].0 == path@);
                    }
                }
            }
            i = i + 1;
        }
        proof {
            assert forall|p: PathView| #[trigger]
                self.state().subvols.contains_key(p) && is_child(p, root@) implies exists|k: int|
                0 <= k < out.len() && (#[trigger] out[k]).path@ == p by {
                let j = lemma_lookup_index(all, p);
                assert(all[j].0 == p);
            }
        }
        Ok(out)
    }

    fn create_readonly_snapshot(&mut self, source: &FsPath, dest: &FsPath) -> (r: Result<
        SubvolumeInfo,
    >)
        ensures
            r is Err ==> final(self).state() == old(self).state(),
            r matches Ok(i) ==> id_given(*old(self), *final(self), dest@) && i.id == old(
                self,
            ).fresh_id() && i.parent_id == 5,
            r is Err ==> same_records(*old(self), *final(self)),
            !old(self).state().subvols.contains_key(source@) ==> (r matches Err(e) && e@
                == ErrorView::SubvolumeNotFound(path_text(source@))),
    {
        self.snapshot(source, dest, true)
    }

    fn create_writable_snapshot(&mut self, source: &FsPath, dest: &FsPath) -> (r: Result<
        SubvolumeInfo,
    >)
        ensures
            r is Err ==> final(self).state() == old(self).state(),
            r matches Ok(i) ==> id_given(*old(self), *final(self), dest@) && i.id == old(
                self,
            ).fresh_id() && i.parent_id == 5,
            r is Err ==> same_records(*old(self), *final(self)),
            !old(self).state().subvols.contains_key(source@) ==> (r matches Err(e) && e@
                == ErrorView::SubvolumeNotFound(path_text(source@))),
    {
        self.snapshot(source, dest, false)
    }

    fn create_subvolume(&mut self, path: &FsPath) -> (r: Result<()>)
        ensures
            r is Ok ==> id_given(*old(self), *final(self), path@),
            r is Err ==> same_records(*old(self), *final(self)),
    {
        if !self.is_vacant(path) {
            return Err(
                RevenantError::Other(cat2("already exists: ", path.display().as_str())),
            );
        }
        let record = Subvol { uuid: random_uuid(), parent_uuid: None, readonly: false };
        let ghost before = self.state();
        let _ = self.track(path, record);
        assert(self.state() == with_subvolume(before, path@, record.uuid));
        Ok(())
    }

    fn delete_subvolume(&mut self, path: &FsPath) -> (r: Result<()>)
        ensures
            r is Err ==> final(self).state() == old(self).state(),
            final(self).dirs() == old(self).dirs(),
            final(self).fresh_id() == old(self).fresh_id(),
            r is Ok ==> final(self).ids() == outside(old(self).ids(), path@),
            r is Err ==> final(self).ids() == old(self).ids(),
            !old(self).state().subvols.contains_key(path@) ==> (r matches Err(e) && e@
                == ErrorView::SubvolumeNotFound(path_text(path@))),
    {
        if find(&self.subvols, path).is_none() {
            return Err(RevenantError::SubvolumeNotFound(path.display()));
        }
        let ghost st = self.state();
        let busy: bool = any_under(&self.subvols, path);
        if busy {
            proof {
                let p = choose|p: PathView| #[trigger]
                    lookup(pairs(self.subvols@), p) is Some && under(p, path@);
                assert(st.subvols.contains_key(p));
            }
            return Err(
                RevenantError::Other(
                    cat3(
                        "ENOTEMPTY: ",
                        path.display().as_str(),
                        " contains nested subvolumes",
                    ),
                ),
            );
        }
        proof {
            assert forall|q: PathView| #[trigger] st.subvols.contains_key(q) implies !under(
                q,
                path@,
            ) by {
                assert(lookup(pairs(self.subvols@), q) is Some);
            }
        }
        drop_within(&mut self.subvols, path);
        drop_within(&mut self.files, path);
        proof {
            assert(self.state().subvols =~= outside(st.subvols, path@));
            assert(self.ids() =~= outside(old(self).ids(), path@));
            assert(self.state().files =~= outside(st.files, path@));
        }
        Ok(())
    }

    fn rename_subvolume(&mut self, source: &FsPath, dest: &FsPath) -> (r: Result<()>)
        ensures
            final(self).dirs() == old(self).dirs(),
            final(self).fresh_id() == old(self).fresh_id(),
            r is Ok ==> final(self).ids() == renamed(old(self).ids(), source@, dest@),
            r is Err ==> final(self).ids() == old(self).ids(),
            !old(self).state().subvols.contains_key(source@) ==> (r matches Err(e) && e@
                == ErrorView::SubvolumeNotFound(path_text(source@))),
    {
        if find(&self.subvols, source).is_none() {
            return Err(RevenantError::SubvolumeNotFound(source.display()));
        }
        let ghost st = self.state();
        let taken: bool = any_within(&self.subvols, dest);
        if taken {
            proof {
                let p = choose|p: PathView| #[trigger]
                    lookup(pairs(self.subvols@), p) is Some && within(p, dest@);
                assert(st.subvols.contains_key(p));
            }
            return Err(
                RevenantError::Other(
                    cat2("destination already exists: ", dest.display().as_str()),
                ),
            );
        }
        if dest.is_within(source) {
            return Err(
                RevenantError::Other(cat2("destination inside source: ", dest.display().as_str())),
            );
        }
        proof {
            assert forall|q: PathView| #[trigger] st.subvols.contains_key(q) implies !within(
                q,
                dest@,
            ) by {
                assert(lookup(pairs(self.subvols@), q) is Some);
            }
            assert(st.subvols.contains_key(source@));
        }
        move_within(&mut self.subvols, source, dest);
        move_within(&mut self.files, source, dest);
        proof {
            assert(self.state().subvols =~= renamed(st.subvols, source@, dest@));
            assert(self.ids() =~= renamed(old(self).ids(), source@, dest@));
            assert(self.state().files =~= renamed(st.files, source@, dest@));
        }
        Ok(())
    }

    fn subvolume_info(&self, path: &FsPath) -> (r: Result<SubvolumeInfo>)
        ensures
            r matches Ok(i) ==> i.id == self.ids()[path@] && i.parent_id == 5,
            !self.state().subvols.contains_key(path@) ==> (r matches Err(e) && e@
                == ErrorView::SubvolumeNotFound(path_text(path@))),
    {
        match find(&self.subvols, path) {
            Some(i) => Ok(self.info(path, &self.subvols[i].value)),
            None => Err(RevenantError::SubvolumeNotFound(path.display())),
        }
    }

    fn set_default_subvolume(&mut self, path: &FsPath) -> (r: Result<()>)
        ensures
            same_records(*old(self), *final(self)),
            !old(self).state().subvols.contains_key(path@) ==> (r matches Err(e) && e@
                == ErrorView::SubvolumeNotFound(path_text(path@))),
    {
        if find(&self.subvols, path).is_none() {
            return Err(RevenantError::SubvolumeNotFound(path.display()));
        }
        self.default_subvol = Some(path.clone());
        Ok(())
    }

    fn create_dir_all(&mut self, path: &FsPath) -> (r: Result<()>)
        ensures
            r is Ok,
            final(self).dirs() == old(self).dirs().push(path@),
            final(self).ids() == old(self).ids(),
            final(self).fresh_id() == old(self).fresh_id(),
    {
        let p = path.clone();
        let ghost before = self.dirs();
        proof {
            assert(path_views(self.created_dirs@.push(p)) =~= path_views(self.created_dirs@).push(
                path@,
            ));
        }
        self.created_dirs.push(p);
        proof {
            let now = self.dirs();
            assert(now == before.push(path@));
            assert forall|d: PathView| #[trigger] old(self).directories().contains(d) implies
                self.directories().contains(d) by {
                let i = choose|i: int|
                    0 <= i < before.len() && within(#[trigger] before[i], d);
                assert(now[i] == before[i]);
            }
            assert forall|d: PathView| #[trigger] within(
                path@,
                d,
            ) implies self.directories().contains(d) by {
                assert(now[before.len() as int] == path@);
            }
        }
        Ok(())
    }

    fn find_nested_subvolumes(&self, root: &FsPath) -> (r: Result<Vec<FsPath>>) {
        let ghost all = pairs(self.subvols@);
        let ghost st = self.state();
        let mut out: Vec<FsPath> = Vec::new();
        let mut i: usize = 0;
        while i < self.subvols.len()
            invariant
                i <= self.subvols.len(),
                all == pairs(self.subvols@),
                st == self.state(),
                forall|k: int|
                    0 <= k < out.len() ==> is_nested(st, root@, (#[trigger] path_views(out@)[k])),
                forall|k: int|
                    0 <= k < out.len() ==> exists|j: int|
                        0 <= j < i && (#[trigger] path_views(out@)[k]) == (#[trigger] all[j]).0,
                forall|j: int|
                    0 <= j < i && is_nested(st, root@, (#[trigger] all[j]).0) ==> path_views(
                        out@,
                    ).contains(all[j].0),
                path_views(out@).no_duplicates(),
            decreases self.subvols.len() - i,
        {
            let path = &self.subvols[i].path;
            assert(all[i as int].0 == path@);
            let first: bool = is_first(&self.subvols, i);
            let direct: bool = self.nested_in(root, path, i);
            if first && direct {
                let p = path.clone();
                let ghost was = path_views(out@);
                proof {
                    assert(path_views(out@.push(p)) =~= was.push(path@));
                    assert forall|k: int| 0 <= k < was.len() implies was[k] != path@ by {
                        let j = choose|j: int|
                            0 <= j < i && was[k] == (#[trigger] all[j]).0;
                        assert(all[j].0 != path@);
                    }
                }
                out.push(p);
                proof {
                    let now = path_views(out@);
                    assert(now == was.push(path@));
                    assert(now[now.len() - 1] == path@);
                    assert forall|j: int|
                        0 <= j < i + 1 && is_nested(
                            st,
                            root@,
                            (#[trigger] all[j]).0,
                        ) implies now.contains(all[j].0) by {
                        if j < i {
                            let k = choose|k: int| 0 <= k < was.len() && was[k] == all[j].0;
                            assert(now[k] == all[j].0);
                        }
                    }
                    assert forall|k: int| 0 <= k < now.len() implies exists|j: int|
                        0 <= j < i + 1 && (#[trigger] now[k]) == (#[trigger] all[j]).0 by {
                        if k < was.len() {
                            assert(now[k] == was[k]);
                            let j = choose|j: int|
                                0 <= j < i && was[k] == (#[trigger] all[j]).0;
                            assert(now[k] == all[j].0);
                        } else {
                            assert(now[k] == all[i as int].0);
                        }
                    }
                }
            } else {
                proof {
                    if is_nested(st, root@, all[i as int].0) {
                        let j = choose|j: int|
                            0 <= j < i && (#[trigger] all[j]).0 == path@;
                        assert(all[j].0 == path@);
                    }
                }
            }
            i = i + 1;
        }
        proof {
            assert forall|p: PathView| #[trigger] is_nested(st, root@, p) implies path_views(
                out@,
            ).contains(p) by {
                let j = lemma_lookup_index(all, p);
                assert(all[j].0 == p);
            }
            lemma_found_finite(all);
            assert(st.subvols.dom() =~= Set::new(|k: PathView| lookup(all, k) is Some));
        }
        Ok(out)
    }

    fn read_file(&self, path: &FsPath) -> (r: Result<Option<String>>) {
        match find(&self.files, path) {
            Some(i) => Ok(Some(self.files[i].value.clone())),
            None => Ok(None),
        }
    }

    fn write_file(&mut self, path: &FsPath, text: &str) -> (r: Result<()>)
        ensures
            same_records(*old(self), *final(self)),
    {
        let ghost all = pairs(self.files@);
        let ghost st = self.state();
        let entry = MockEntry { path: path.clone(), value: text.to_owned() };
        let ghost value = entry.value;
        match find(&self.files, path) {
            Some(i) => {
                self.files.set(i, entry);
                proof {
                    assert(pairs(self.files@) =~= all.update(i as int, (path@, value)));
                    assert forall|p: PathView| #[trigger] lookup(
                        all.update(i as int, (path@, value)),
                        p,
                    ) == if p == path@ {
                        Some(value)
                    } else {
                        lookup(all, p)
                    } by {
                        lemma_lookup_update(all, path@, value, i as int, p);
                    }
                }
            },
            None => {
                let ghost before = self.files@;
                self.files.push(entry);
                proof {
                    lemma_pairs_push(before, entry);
                    assert forall|p: PathView| #[trigger] lookup(pairs(self.files@), p) == if p
                        == path@ {
                        Some(value)
                    } else {
                        lookup(all, p)
                    } by {
                        lemma_lookup_push(all, path@, value, p);
                    }
                }
            },
        }
        proof {
            assert(self.state().files =~= st.files.insert(path@, text@));
        }
        Ok(())
    }

    fn remove_file(&mut self, path: &FsPath) -> (r: Result<bool>)
        ensures
            same_records(*old(self), *final(self)),
    {
        let ghost st = self.state();
        let found: bool = find(&self.files, path).is_some();
        drop_at(&mut self.files, path);
        proof {
            assert(self.state().files =~= st.files.remove(path@));
        }
        Ok(found)
    }

    fn list_files(&self, dir: &FsPath) -> (r: Result<Vec<String>>) {
        let ghost all = pairs(self.files@);
        let mut out: Vec<String> = Vec::new();
        let mut i: usize = 0;
        while i < self.files.len()
            invariant
                i <= self.files.len(),
                all == pairs(self.files@),
                forall|k: int|
                    0 <= k < out.len() ==> exists|j: int|
                        0 <= j < i && dir@.push(#[trigger] views(out@)[k]) == (
                        #[trigger] all[j]).0,
                forall|j: int|
                    0 <= j < i && is_child((#[trigger] all[j]).0, dir@) ==> views(out@).contains(
                        all[j].0.last(),
                    ),
                views(out@).no_duplicates(),
            decreases self.files.len() - i,
        {
            let path = &self.files[i].path;
            assert(all[i as int].0 == path@);
            let first: bool = is_first(&self.files, i);
            if path.is_child_of(dir) && first {
                let n: usize = path.parts.len();
                let name: String = path.parts[n - 1].clone();
                let ghost was = views(out@);
                proof {
                    assert(path@.last() == name@);
                    assert(path@ =~= dir@.push(name@));
                    crate::text::lemma_views_push(out@, name);
                    assert forall|k: int| 0 <= k < was.len() implies was[k] != name@ by {
                        let j = choose|j: int|
                            0 <= j < i && dir@.push(was[k]) == (#[trigger] all[j]).0;
                        assert(all[j].0 != path@);
                    }
                }
                out.push(name);
                proof {
                    let now = views(out@);
                    assert(now == was.push(name@));
                    assert(now[now.len() - 1] == name@);
                    assert forall|j: int|
                        0 <= j < i + 1 && is_child(
                            (#[trigger] all[j]).0,
                            dir@,
                        ) implies now.contains(all[j].0.last()) by {
                        if j < i {
                            let k = choose|k: int|
                                0 <= k < was.len() && was[k] == all[j].0.last();
                            assert(now[k] == all[j].0.last());
                        }
                    }
                    assert forall|k: int| 0 <= k < now.len() implies exists|j: int|
                        0 <= j < i + 1 && dir@.push(#[trigger] now[k]) == (
                        #[trigger] all[j]).0 by {
                        if k < was.len() {
                            assert(now[k] == was[k]);
                            let j = choose|j: int|
                                0 <= j < i && dir@.push(was[k]) == (#[trigger] all[j]).0;
                            assert(dir@.push(now[k]) == all[j].0);
                        } else {
                            assert(dir@.push(now[k]) == all[i as int].0);
                        }
                    }
                }
            } else {
                proof {
                    if is_child(all[i as int].0, dir@) {
                        let j = choose|j: int|
                            0 <= j < i && (#[trigger] all[j]).0 == path@;
                        assert(all[j].0 == path@);
                    }
                }
            }
            i = i + 1;
        }
        proof {
            assert forall|n: Seq<char>|
                views(out@).contains(n) <==> #[trigger] self.state().files.contains_key(
                    dir@.push(n),
                ) by {
                let p = dir@.push(n);
                assert(p.take(dir@.len() as int) =~= dir@);
                if lookup(all, p) is Some {
                    let j = lemma_lookup_index(all, p);
                    assert(is_child(all[j].0, dir@));
                    assert(all[j].0.last() == n);
                }
                if views(out@).contains(n) {
                    let k = choose|k: int| 0 <= k < views(out@).len() && views(out@)[k] == n;
                    let j = choose|j: int|
                        0 <= j < all.len() && dir@.push(views(out@)[k]) == (#[trigger] all[j]).0;
                    lemma_lookup_present(all, p, j);
                }
            }
        }
        Ok(out)
    }

    fn sync_tree(&mut self, from: &FsPath, to: &FsPath) -> (r: Result<()>)
        ensures
            same_records(*old(self), *final(self)),
            r is Err ==> final(self).state() == old(self).state(),
    {
        if from.is_within(to) || to.is_within(from) {
            return Err(
                RevenantError::EfiSync(cat2("trees overlap: ", to.display().as_str())),
            );
        }
        let ghost st = self.state();
        let ghost all = pairs(self.files@);
        let mut extra = self.copies(from, to, true);
        let ghost more = pairs(extra@);
        drop_under(&mut self.files, to);
        let ghost rest = pairs(self.files@);
        self.files.append(&mut extra);
        proof {
            let now = self.state();
            assert(pairs(self.files@) =~= rest + more);
            assert forall|p: PathView| #[trigger] lookup(rest + more, p) == if under(p, to@) {
                lookup(more, p)
            } else {
                lookup(all, p)
            } by {
                lemma_lookup_concat(rest, more, p);
                assert(lookup(rest, p) == if under(p, to@) {
                    None
                } else {
                    lookup(all, p)
                });
                if lookup(more, p) is Some {
                    lemma_moved_back(p, to@, from@);
                }
            }
            assert(now.subvols =~= st.subvols);
            assert forall|p: PathView| under(p, to@) implies (#[trigger] now.files.contains_key(p)
                == st.files.contains_key(moved(p, to@, from@))) by {
                lemma_within_self(p, to@);
                lemma_moved_back(p, to@, from@);
                assert(lookup(more, p) is Some <==> taken(
                    st,
                    from@,
                    moved(p, to@, from@),
                    true,
                ));
            }
            assert forall|p: PathView|
                under(p, to@) && now.files.contains_key(p) implies #[trigger] now.files[p]
                == st.files[moved(p, to@, from@)] by {
                assert(lookup(more, p) is Some);
            }
            assert forall|p: PathView|
                !under(p, to@) && st.files.contains_key(p) implies #[trigger] now.files[p]
                == st.files[p] by {
                assert(lookup(rest + more, p) == lookup(all, p));
            }
        }
        Ok(())
    }
}

impl MockBackend {
    /// Whether the subvolume at `path`, the one at index `at`, is nested
    /// directly inside `root`.
    fn nested_in(&self, root: &FsPath, path: &FsPath, at: usize) -> (r: bool)
        requires
            at < self.subvols.len(),
            self.subvols[at as int].path@ == path@,
        ensures
            r == is_nested(self.state(), root@, path@),
    {
        let ghost all = pairs(self.subvols@);
        proof {
            assert(all[at as int].0 == path@);
            lemma_lookup_present(all, path@, at as int);
        }
        if !path.is_under(root) {
            return false;
        }
        let mut j: usize = 0;
        while j < self.subvols.len()
            invariant
                j <= self.subvols.len(),
                all == pairs(self.subvols@),
                forall|k: int|
                    0 <= k < j && under((#[trigger] all[k]).0, root@) && within(path@, all[k].0)
                        ==> all[k].0 == path@,
            decreases self.subvols.len() - j,
        {
            let other = &self.subvols[j].path;
            assert(all[j as int].0 == other@);
            if other.is_under(root) && path.is_within(other) && !other.same(path) {
                proof {
                    lemma_lookup_present(all, other@, j as int);
                    assert(self.state().subvols.contains_key(other@));
                }
                return false;
            }
            j = j + 1;
        }
        proof {
            assert forall|q: PathView| #[trigger]
                self.state().subvols.contains_key(q) && under(q, root@) && within(
                    path@,
                    q,
                ) implies q == path@ by {
                let k = lemma_lookup_index(all, q);
                assert(all[k].0 == q);
            }
        }
        true
    }
}

} // verus!
