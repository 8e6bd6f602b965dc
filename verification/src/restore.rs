//! Restoring a snapshot.

use vstd::prelude::*;
use vstd::string::*;

use crate::assoc::lookup;
use crate::backend::effects::{lemma_failed_snapshot_grows, same_files};
use crate::backend::{
    can_rename, can_snapshot, is_fs_fault, is_nested, is_nesting, is_synced, owned, path_views, subvol_exists, vacant,
    with_rename, with_snapshot, FileSystemBackend, FsState, Subvol,
};
use crate::config::{Config, ConfigView, DELETE_STRAIN};
use crate::error::{ErrorView, Result, RevenantError};
use crate::path::{
    is_component, lemma_join_component, lemma_moved_back, lemma_moved_within,
    lemma_within_comparable, lemma_within_self, lemma_within_trans, moved, path_join, path_of,
    under, within, FsPath, PathView,
};
use crate::pkgmgr::pacman::LOCK_FILE;
use crate::pkgmgr::{all_package_managers, PackageManager};
use crate::snapshot::discovery::{is_live_parent, strain_parts};
use crate::snapshot::id::{
    id_ok, is_clock_id, lemma_trailing, name_text, SnapshotId,
};
use crate::snapshot::info::{snap_dir_of, snapshot_dir, InfoView, SnapshotInfo};
use crate::snapshot::operations::{apart, part_path};
use crate::text::{cat5, lemma_views_push, views};

verus! {

/// Whether `p` lies in a subvolume nested in `root`.
pub open spec fn inside(a: FsState, root: PathView, p: PathView) -> bool {
    exists|q: PathView| #[trigger]
        a.subvols.contains_key(q) && under(q, root) && within(p, q)
}

/// Whether `p` lies in one of the first `k` of the given subvolumes.
spec fn back(nested: Seq<PathView>, k: int, p: PathView) -> bool {
    exists|j: int| 0 <= j < k && within(p, #[trigger] nested[j])
}

/// The file at `p`, if there is one.
pub open spec fn file_at(a: FsState, p: PathView) -> Option<Seq<char>> {
    if a.files.contains_key(p) {
        Some(a.files[p])
    } else {
        None
    }
}

/// The file at `p` after the subvolume at `current` was swapped for a copy of
/// `snap`: the marker holds the files that `current` itself held, `current`
/// holds those of `snap`, and files in nested subvolumes stay where they are.
pub open spec fn file_after(
    a: FsState,
    current: PathView,
    delete: PathView,
    snap: PathView,
    p: PathView,
) -> Option<Seq<char>> {
    if within(p, delete) {
        let x = moved(p, delete, current);
        if inside(a, current, x) {
            None
        } else {
            file_at(a, x)
        }
    } else if within(p, current) {
        let x = moved(p, current, snap);
        if inside(a, current, p) {
            file_at(a, p)
        } else if owned(a, snap, x) {
            Some(a.files[x])
        } else {
            None
        }
    } else {
        file_at(a, p)
    }
}

/// Whether `b` is `a` after the subvolume at `current` became the DELETE
/// marker at `delete` and a writable snapshot of `snap` took its place.
/// Subvolumes nested in `current` are where they were; nothing else changed.
pub open spec fn swapped(
    a: FsState,
    b: FsState,
    current: PathView,
    delete: PathView,
    snap: PathView,
) -> bool {
    &&& a.subvols.contains_key(current)
    &&& a.subvols.contains_key(snap)
    &&& !a.subvols.contains_key(delete)
    &&& b.default_subvol == a.default_subvol
    &&& forall|p: PathView| #[trigger]
        b.subvols.contains_key(p) <==> a.subvols.contains_key(p) || p == delete
    &&& forall|p: PathView| #[trigger]
        a.subvols.contains_key(p) && p != current ==> b.subvols[p] == a.subvols[p]
    &&& b.subvols[delete] == a.subvols[current]
    &&& b.subvols[current].parent_uuid == Some(a.subvols[snap].uuid)
    &&& !b.subvols[current].readonly
    &&& forall|p: PathView| #[trigger]
        b.files.contains_key(p) <==> file_after(a, current, delete, snap, p) is Some
    &&& forall|p: PathView| #[trigger]
        b.files.contains_key(p) ==> file_after(a, current, delete, snap, p) == Some(b.files[p])
}

/// Whether none of the three places holds another.
pub open spec fn all_apart(current: PathView, delete: PathView, snap: PathView) -> bool {
    apart(current, delete) && apart(current, snap) && apart(delete, snap)
}

/// The subvolumes and files between the swap and the end of re-attaching,
/// when the first `k` nested subvolumes are back in place.
spec fn between(
    a: FsState,
    current: PathView,
    delete: PathView,
    snap: PathView,
    new: Subvol,
    nested: Seq<PathView>,
    k: int,
) -> FsState {
    FsState {
        subvols: Map::new(
            |p: PathView|
                if p == current {
                    true
                } else if within(p, current) {
                    a.subvols.contains_key(p) && back(nested, k, p)
                } else if within(p, delete) {
                    a.subvols.contains_key(moved(p, delete, current)) && !back(
                        nested,
                        k,
                        moved(p, delete, current),
                    )
                } else {
                    a.subvols.contains_key(p)
                },
            |p: PathView|
                if p == current {
                    new
                } else if within(p, delete) {
                    a.subvols[moved(p, delete, current)]
                } else {
                    a.subvols[p]
                },
        ),
        files: Map::new(
            |p: PathView|
                if within(p, current) {
                    if back(nested, k, p) {
                        a.files.contains_key(p)
                    } else {
                        owned(a, snap, moved(p, current, snap))
                    }
                } else if within(p, delete) {
                    a.files.contains_key(moved(p, delete, current)) && !back(
                        nested,
                        k,
                        moved(p, delete, current),
                    )
                } else {
                    a.files.contains_key(p)
                },
            |p: PathView|
                if within(p, current) {
                    if back(nested, k, p) {
                        a.files[p]
                    } else {
                        a.files[moved(p, current, snap)]
                    }
                } else if within(p, delete) {
                    a.files[moved(p, delete, current)]
                } else {
                    a.files[p]
                },
        ),
        default_subvol: a.default_subvol,
    }
}

proof fn lemma_apart(p: PathView, q: PathView, x: PathView)
    requires
        apart(p, q),
    ensures
        !(within(x, p) && within(x, q)),
{
    if within(x, p) && within(x, q) {
        lemma_within_comparable(x, p, q);
    }
}

/// A snapshot's own files do not depend on what is renamed elsewhere.
proof fn lemma_owned_apart(
    a: FsState,
    current: PathView,
    delete: PathView,
    snap: PathView,
    x: PathView,
)
    requires
        all_apart(current, delete, snap),
    ensures
        owned(with_rename(a, current, delete), snap, x) == owned(a, snap, x),
        owned(a, snap, x) ==> with_rename(a, current, delete).files[x] == a.files[x],
{
    let b = with_rename(a, current, delete);
    if under(x, snap) {
        lemma_within_self(x, snap);
        lemma_apart(current, snap, x);
        lemma_apart(delete, snap, x);
        assert(b.files.contains_key(x) == a.files.contains_key(x));
        assert forall|q: PathView| under(q, snap) implies (#[trigger] b.subvols.contains_key(q)
            == a.subvols.contains_key(q)) by {
            lemma_within_self(q, snap);
            lemma_apart(current, snap, q);
            lemma_apart(delete, snap, q);
        }
        if owned(a, snap, x) {
            assert forall|q: PathView| #[trigger]
                b.subvols.contains_key(q) && under(q, snap) implies !within(x, q) by {
                assert(a.subvols.contains_key(q));
            }
        }
        if owned(b, snap, x) {
            assert forall|q: PathView| #[trigger]
                a.subvols.contains_key(q) && under(q, snap) implies !within(x, q) by {
                assert(b.subvols.contains_key(q));
            }
        }
    }
}

/// The state right after the swap.
proof fn lemma_between_start(
    a: FsState,
    current: PathView,
    delete: PathView,
    snap: PathView,
    uuid: u128,
    nested: Seq<PathView>,
)
    requires
        all_apart(current, delete, snap),
        a.subvols.contains_key(current),
        a.subvols.contains_key(snap),
        can_rename(a, current, delete),
        is_nesting(a, current, nested),
    ensures
        with_snapshot(with_rename(a, current, delete), snap, current, uuid, false) == between(
            a,
            current,
            delete,
            snap,
            Subvol { uuid, parent_uuid: Some(a.subvols[snap].uuid), readonly: false },
            nested,
            0,
        ),
        can_snapshot(with_rename(a, current, delete), snap, current),
{
    let s1 = with_rename(a, current, delete);
    let new = Subvol { uuid, parent_uuid: Some(a.subvols[snap].uuid), readonly: false };
    let s2 = with_snapshot(s1, snap, current, uuid, false);
    let m = between(a, current, delete, snap, new, nested, 0);
    assert(s1.subvols.contains_key(snap) && s1.subvols[snap] == a.subvols[snap]);
    assert(vacant(s1, current)) by {
        assert forall|q: PathView| #[trigger] s1.subvols.contains_key(q) implies !within(
            q,
            current,
        ) by {
            lemma_apart(current, delete, q);
        }
        assert forall|q: PathView| #[trigger] s1.files.contains_key(q) implies !within(
            q,
            current,
        ) by {
            lemma_apart(current, delete, q);
        }
    }
    assert forall|p: PathView|
        #![trigger s2.subvols.contains_key(p)]
        #![trigger m.subvols.contains_key(p)]
        s2.subvols.contains_key(p) == m.subvols.contains_key(p) && (s2.subvols.contains_key(p)
            ==> s2.subvols[p] == m.subvols[p]) by {
        lemma_apart(current, delete, p);
        lemma_within_self(p, current);
        assert(!back(nested, 0, p));
        assert(!back(nested, 0, moved(p, delete, current)));
    }
    assert(s2.subvols =~= m.subvols);
    assert forall|p: PathView|
        #![trigger s2.files.contains_key(p)]
        #![trigger m.files.contains_key(p)]
        s2.files.contains_key(p) == m.files.contains_key(p) && (s2.files.contains_key(p)
            ==> s2.files[p] == m.files[p]) by {
        lemma_apart(current, delete, p);
        lemma_owned_apart(a, current, delete, snap, moved(p, current, snap));
        assert(!back(nested, 0, p));
        assert(!back(nested, 0, moved(p, delete, current)));
    }
    assert(s2.files =~= m.files);
}

proof fn lemma_moved_nested(p: PathView, n: PathView, current: PathView, delete: PathView)
    requires
        within(p, n),
        within(n, current),
    ensures
        moved(p, n, moved(n, current, delete)) == moved(p, current, delete),
        within(p, current),
{
    lemma_within_trans(p, n, current);
    let f = moved(n, current, delete);
    assert(p =~= n + p.skip(n.len() as int));
    assert(f + p.skip(n.len() as int) =~= delete + p.skip(current.len() as int)) by {
        assert(n =~= current + n.skip(current.len() as int));
        assert(p.skip(current.len() as int) =~= n.skip(current.len() as int) + p.skip(
            n.len() as int,
        ));
    }
}

proof fn lemma_nested_apart(a: FsState, root: PathView, nested: Seq<PathView>, j: int, k: int)
    requires
        is_nesting(a, root, nested),
        0 <= j < nested.len(),
        0 <= k < nested.len(),
        j != k,
    ensures
        !within(nested[j], nested[k]),
{
    assert(is_nested(a, root, nested[j]));
    assert(is_nested(a, root, nested[k]));
}

/// Re-attaching one more nested subvolume.
proof fn lemma_between_step(
    a: FsState,
    current: PathView,
    delete: PathView,
    snap: PathView,
    new: Subvol,
    nested: Seq<PathView>,
    k: int,
)
    requires
        all_apart(current, delete, snap),
        is_nesting(a, current, nested),
        0 <= k < nested.len(),
    ensures
        with_rename(
            between(a, current, delete, snap, new, nested, k),
            moved(nested[k], current, delete),
            nested[k],
        ) == between(a, current, delete, snap, new, nested, k + 1),
        can_rename(
            between(a, current, delete, snap, new, nested, k),
            moved(nested[k], current, delete),
            nested[k],
        ),
{
    let n = nested[k];
    let f = moved(n, current, delete);
    let m = between(a, current, delete, snap, new, nested, k);
    let m2 = between(a, current, delete, snap, new, nested, k + 1);
    let w = with_rename(m, f, n);
    assert(is_nested(a, current, n));
    lemma_within_self(n, current);
    lemma_moved_back(n, current, delete);
    lemma_apart(current, delete, f);
    lemma_apart(current, delete, n);
    lemma_within_self(n, f);
    assert(!within(n, f)) by {
        if within(n, f) {
            lemma_within_trans(n, f, delete);
        }
    }
    // Whether a path is back in place after one more step.
    assert forall|p: PathView| #[trigger] back(nested, k + 1, p) == (back(nested, k, p) || within(
        p,
        n,
    )) by {
        if back(nested, k, p) {
            let j = choose|j: int| 0 <= j < k && within(p, #[trigger] nested[j]);
            assert(within(p, nested[j]) && j < k + 1);
        }
        if within(p, n) {
            assert(within(p, nested[k]));
        }
    }
    assert forall|p: PathView| #[trigger] within(p, n) implies !back(nested, k, p) by {
        if back(nested, k, p) {
            let j = choose|j: int| 0 <= j < k && within(p, #[trigger] nested[j]);
            lemma_within_comparable(p, n, nested[j]);
            lemma_nested_apart(a, current, nested, j, k);
            lemma_nested_apart(a, current, nested, k, j);
        }
    }
    assert forall|q: PathView| #[trigger] m.subvols.contains_key(q) implies !within(q, n) by {
        if within(q, n) {
            lemma_within_trans(q, n, current);
            lemma_within_self(q, current);
            if q == current {
                lemma_within_self(current, n);
            }
        }
    }
    assert(m.subvols.contains_key(f)) by {
        lemma_within_self(f, current);
        lemma_within_self(n, n);
        assert(!within(f, current));
        assert(f != current);
    }
    assert forall|p: PathView|
        #![trigger w.subvols.contains_key(p)]
        #![trigger m2.subvols.contains_key(p)]
        #![trigger w.files.contains_key(p)]
        #![trigger m2.files.contains_key(p)]
        w.subvols.contains_key(p) == m2.subvols.contains_key(p) && (w.subvols.contains_key(p)
            ==> w.subvols[p] == m2.subvols[p]) && w.files.contains_key(p)
            == m2.files.contains_key(p) && (w.files.contains_key(p) ==> w.files[p]
            == m2.files[p]) by {
        lemma_apart(current, delete, p);
        lemma_within_self(p, current);
        if within(p, n) {
            lemma_moved_nested(p, n, current, delete);
            let y = moved(p, current, delete);
            lemma_moved_back(p, current, delete);
            lemma_apart(current, delete, y);
            lemma_within_self(y, current);
            lemma_within_self(current, n);
            assert(p != current);
            assert(y != current);
            assert(moved(p, n, f) == y);
            assert(back(nested, k + 1, p));
        } else {
            if within(p, current) {
                if within(p, f) {
                    lemma_within_trans(p, f, delete);
                }
                assert(!within(p, f));
                assert(back(nested, k + 1, p) == back(nested, k, p));
            } else if within(p, delete) {
                let x = moved(p, delete, current);
                lemma_moved_back(p, delete, current);
                lemma_moved_within(p, f, delete, current);
                lemma_moved_back(n, current, delete);
                assert(moved(f, delete, current) == n);
                assert(within(p, f) == within(x, n));
                assert(back(nested, k + 1, x) == (back(nested, k, x) || within(x, n)));
            } else {
                if within(p, f) {
                    lemma_within_trans(p, f, delete);
                }
            }
        }
    }
    assert(w.subvols =~= m2.subvols);
    assert(w.files =~= m2.files);
}

/// Every subvolume inside `root` lies in one that is nested directly in it.
pub proof fn lemma_nested_exists(a: FsState, root: PathView, p: PathView) -> (n: PathView)
    requires
        a.subvols.contains_key(p),
        under(p, root),
    ensures
        is_nested(a, root, n),
        within(p, n),
    decreases p.len(),
{
    lemma_within_self(p, p);
    if is_nested(a, root, p) {
        p
    } else {
        let q = choose|q: PathView| #[trigger]
            a.subvols.contains_key(q) && under(q, root) && within(p, q) && q != p;
        lemma_within_self(p, q);
        let n = lemma_nested_exists(a, root, q);
        lemma_within_trans(p, q, n);
        n
    }
}

/// When all nested subvolumes are back, the swap is complete.
proof fn lemma_between_end(
    a: FsState,
    current: PathView,
    delete: PathView,
    snap: PathView,
    new: Subvol,
    nested: Seq<PathView>,
)
    requires
        all_apart(current, delete, snap),
        a.subvols.contains_key(current),
        a.subvols.contains_key(snap),
        can_rename(a, current, delete),
        is_nesting(a, current, nested),
        new.parent_uuid == Some(a.subvols[snap].uuid),
        !new.readonly,
    ensures
        swapped(
            a,
            between(a, current, delete, snap, new, nested, nested.len() as int),
            current,
            delete,
            snap,
        ),
{
    let k = nested.len() as int;
    let b = between(a, current, delete, snap, new, nested, k);
    lemma_within_self(current, current);
    lemma_within_self(delete, delete);
    lemma_moved_back(delete, delete, current);
    assert(moved(delete, delete, current) =~= current);
    assert forall|p: PathView| #[trigger] back(nested, k, p) == inside(a, current, p) by {
        if back(nested, k, p) {
            let j = choose|j: int| 0 <= j < k && within(p, #[trigger] nested[j]);
            assert(is_nested(a, current, nested[j]));
            assert(a.subvols.contains_key(nested[j]));
        }
        if inside(a, current, p) {
            let q = choose|q: PathView| #[trigger]
                a.subvols.contains_key(q) && under(q, current) && within(p, q);
            let n = lemma_nested_exists(a, current, q);
            lemma_within_trans(p, q, n);
            assert(nested.contains(n));
            let j = choose|j: int| 0 <= j < nested.len() && nested[j] == n;
            assert(within(p, nested[j]));
        }
    }
    assert forall|p: PathView| #[trigger] b.subvols.contains_key(p) <==> a.subvols.contains_key(p)
        || p == delete by {
        lemma_apart(current, delete, p);
        lemma_within_self(p, current);
        lemma_within_self(p, delete);
        if under(p, current) && a.subvols.contains_key(p) {
            lemma_within_self(p, p);
            assert(inside(a, current, p));
            assert(back(nested, k, p));
        }
        if within(p, delete) {
            let x = moved(p, delete, current);
            lemma_moved_back(p, delete, current);
            if p != delete && a.subvols.contains_key(x) {
                lemma_within_self(x, x);
                assert(inside(a, current, x));
                assert(back(nested, k, x));
            }
        }
        if p == delete {
            if back(nested, k, current) {
                let j = choose|j: int| 0 <= j < k && within(current, #[trigger] nested[j]);
                assert(is_nested(a, current, nested[j]));
                lemma_within_self(nested[j], current);
            }
        }
    }
    assert forall|p: PathView| #[trigger] a.subvols.contains_key(p) && p != current implies
        b.subvols[p] == a.subvols[p] by {
        assert(b.subvols.contains_key(p));
        assert(!within(p, delete));
    }
    assert(b.subvols[delete] == a.subvols[current]) by {
        assert(b.subvols.contains_key(delete));
        assert(delete != current);
    }
    assert(b.subvols.contains_key(current));
    assert forall|p: PathView| #[trigger] b.files.contains_key(p) <==> file_after(
        a,
        current,
        delete,
        snap,
        p,
    ) is Some by {
        lemma_apart(current, delete, p);
        assert(back(nested, k, p) == inside(a, current, p));
        assert(back(nested, k, moved(p, delete, current)) == inside(
            a,
            current,
            moved(p, delete, current),
        ));
    }
    assert forall|p: PathView| #[trigger] b.files.contains_key(p) implies file_after(
        a,
        current,
        delete,
        snap,
        p,
    ) == Some(b.files[p]) by {
        lemma_apart(current, delete, p);
        assert(back(nested, k, p) == inside(a, current, p));
        assert(back(nested, k, moved(p, delete, current)) == inside(
            a,
            current,
            moved(p, delete, current),
        ));
    }
}

/// Whether no subvolume of `a` is lost in `b`: each is where it was, or, if it
/// was at `current` or inside it, where it comes to lie in the marker.
pub open spec fn none_lost(a: FsState, b: FsState, current: PathView, delete: PathView) -> bool {
    forall|p: PathView| #[trigger]
        a.subvols.contains_key(p) ==> (b.subvols.contains_key(p) && b.subvols[p] == a.subvols[p])
            || (within(p, current) && b.subvols.contains_key(moved(p, current, delete))
            && b.subvols[moved(p, current, delete)] == a.subvols[p])
}

/// Whether `p` is in `b` the file that it was in `a`.
pub open spec fn same_file(a: FsState, p: PathView, b: FsState, q: PathView) -> bool {
    b.files.contains_key(q) && b.files[q] == a.files[p]
}

/// Whether no file of `a` is lost in `b`: each is where it was, or, if it was
/// inside `current`, where it comes to lie in the marker. What the marker's
/// place held before is not asked for. Files elsewhere are as they were.
pub open spec fn files_kept(a: FsState, b: FsState, current: PathView, delete: PathView) -> bool {
    &&& forall|p: PathView| #[trigger]
        a.files.contains_key(p) && !within(p, delete) ==> same_file(a, p, b, p) || (within(
            p,
            current,
        ) && same_file(a, p, b, moved(p, current, delete)))
    &&& forall|p: PathView|
        !within(p, current) && !within(p, delete) ==> #[trigger] file_at(b, p) == file_at(a, p)
}

proof fn lemma_files_renamed(a: FsState, current: PathView, delete: PathView)
    requires
        apart(current, delete),
    ensures
        files_kept(a, with_rename(a, current, delete), current, delete),
{
    let b = with_rename(a, current, delete);
    assert forall|p: PathView| #[trigger] a.files.contains_key(p) && !within(p, delete) implies
        same_file(a, p, b, p) || (within(p, current) && same_file(
        a,
        p,
        b,
        moved(p, current, delete),
    )) by {
        if within(p, current) {
            lemma_moved_back(p, current, delete);
        }
    }
}

/// A snapshot made at `current` after the rename takes no file away.
proof fn lemma_files_snapshot(
    a: FsState,
    b: FsState,
    current: PathView,
    delete: PathView,
    snap: PathView,
)
    requires
        apart(current, delete),
        b == with_rename(a, current, delete) || exists|uuid: u128|
            b == #[trigger] with_snapshot(
                with_rename(a, current, delete),
                snap,
                current,
                uuid,
                false,
            ),
    ensures
        files_kept(a, b, current, delete),
{
    let s = with_rename(a, current, delete);
    lemma_files_renamed(a, current, delete);
    if b != s {
        assert forall|p: PathView|
            #[trigger] a.files.contains_key(p) && !within(p, delete) implies same_file(a, p, b, p)
            || (within(p, current) && same_file(a, p, b, moved(p, current, delete))) by {
            if within(p, current) {
                let q = moved(p, current, delete);
                lemma_moved_back(p, current, delete);
                lemma_apart(current, delete, q);
                lemma_apart(current, delete, p);
                assert(s.files.contains_key(q));
            } else {
                assert(file_at(s, p) == file_at(a, p));
            }
        }
        assert forall|p: PathView|
            !within(p, current) && !within(p, delete) implies #[trigger] file_at(b, p) == file_at(
            a,
            p,
        ) by {
            assert(file_at(s, p) == file_at(a, p));
        }
    }
}

proof fn lemma_between_files(
    a: FsState,
    current: PathView,
    delete: PathView,
    snap: PathView,
    new: Subvol,
    nested: Seq<PathView>,
    k: int,
)
    requires
        apart(current, delete),
    ensures
        files_kept(a, between(a, current, delete, snap, new, nested, k), current, delete),
{
    let b = between(a, current, delete, snap, new, nested, k);
    assert forall|p: PathView| #[trigger] a.files.contains_key(p) && !within(p, delete) implies
        same_file(a, p, b, p) || (within(p, current) && same_file(
        a,
        p,
        b,
        moved(p, current, delete),
    )) by {
        if within(p, current) && !back(nested, k, p) {
            let q = moved(p, current, delete);
            lemma_moved_back(p, current, delete);
            lemma_apart(current, delete, q);
        }
    }
}

proof fn lemma_between_none_lost(
    a: FsState,
    current: PathView,
    delete: PathView,
    snap: PathView,
    new: Subvol,
    nested: Seq<PathView>,
    k: int,
)
    requires
        all_apart(current, delete, snap),
        can_rename(a, current, delete),
        is_nesting(a, current, nested),
        0 <= k <= nested.len(),
    ensures
        none_lost(a, between(a, current, delete, snap, new, nested, k), current, delete),
{
    let b = between(a, current, delete, snap, new, nested, k);
    assert forall|p: PathView| #[trigger] a.subvols.contains_key(p) implies (
    b.subvols.contains_key(p) && b.subvols[p] == a.subvols[p]) || (within(p, current)
        && b.subvols.contains_key(moved(p, current, delete)) && b.subvols[moved(
        p,
        current,
        delete,
    )] == a.subvols[p]) by {
        assert(!within(p, delete));
        lemma_within_self(p, current);
        if within(p, current) {
            let y = moved(p, current, delete);
            lemma_moved_back(p, current, delete);
            lemma_apart(current, delete, y);
            lemma_within_self(y, current);
            if p == current {
                if back(nested, k, current) {
                    let j = choose|j: int| 0 <= j < k && within(current, #[trigger] nested[j]);
                    assert(is_nested(a, current, nested[j]));
                    lemma_within_self(nested[j], current);
                }
            }
            if back(nested, k, p) {
                assert(b.subvols.contains_key(p));
            } else {
                assert(y != current);
                assert(b.subvols.contains_key(y));
            }
        }
    }
}

/// Whether the marker of a live subvolume is put where the live subvolume
/// itself lies, or inside it.
pub open spec fn is_beside(current: PathView, delete: PathView) -> bool {
    match crate::path::parent_of(delete) {
        Some(d) => within(current, d),
        None => true,
    }
}

/// Swaps the live subvolume at `current` for a writable snapshot of the one at
/// `snap`: the live one becomes the DELETE marker at `delete`, and the
/// subvolumes nested in it are moved back into the new one.
pub fn swap_subvolume<B: FileSystemBackend>(
    backend: &mut B,
    current: &FsPath,
    delete: &FsPath,
    snap: &FsPath,
) -> (r: Result<()>)
    ensures
        final(backend).reliable() == old(backend).reliable(),
        r is Ok && all_apart(current@, delete@, snap@) ==> swapped(
            old(backend).state(),
            final(backend).state(),
            current@,
            delete@,
            snap@,
        ),
        r is Err && all_apart(current@, delete@, snap@) ==> none_lost(
            old(backend).state(),
            final(backend).state(),
            current@,
            delete@,
        ) && files_kept(old(backend).state(), final(backend).state(), current@, delete@),
        old(backend).reliable() && all_apart(current@, delete@, snap@) && can_rename(
            old(backend).state(),
            current@,
            delete@,
        ) && is_beside(current@, delete@) && old(backend).state().subvols.contains_key(snap@)
            ==> r is Ok,
        r matches Err(e) ==> is_fs_fault(e@),
{
    let ghost a = backend.state();
    let ghost sane = all_apart(current@, delete@, snap@);
    let found = match backend.find_nested_subvolumes(current) {
        Ok(v) => v,
        Err(e) => {
            return Err(e);
        },
    };
    let ghost nested = path_views(found@);
    match backend.rename_subvolume(current, delete) {
        Ok(_) => {},
        Err(e) => {
            return Err(e);
        },
    }
    let ghost s1 = backend.state();
    proof {
        if sane && a.subvols.contains_key(snap@) {
            lemma_between_start(a, current@, delete@, snap@, 0, nested);
        }
    }
    let made = backend.create_writable_snapshot(snap, current);
    let ghost mut new: Subvol = Subvol {
        uuid: 0,
        parent_uuid: Some(a.subvols[snap@].uuid),
        readonly: false,
    };
    match made {
        Ok(info) => {
            proof {
                if sane {
                    assert(s1.subvols.contains_key(snap@));
                    assert(a.subvols.contains_key(snap@));
                    lemma_between_start(a, current@, delete@, snap@, info.uuid, nested);
                    new = Subvol {
                        uuid: info.uuid,
                        parent_uuid: Some(a.subvols[snap@].uuid),
                        readonly: false,
                    };
                }
            }
        },
        Err(e) => {
            proof {
                if sane {
                    let b = backend.state();
                    lemma_failed_snapshot_grows(s1, b, snap@, current@, false);
                    lemma_files_snapshot(a, b, current@, delete@, snap@);
                    assert forall|p: PathView| #[trigger] a.subvols.contains_key(p) implies (
                    b.subvols.contains_key(p) && b.subvols[p] == a.subvols[p]) || (within(
                        p,
                        current@,
                    ) && b.subvols.contains_key(moved(p, current@, delete@)) && b.subvols[moved(
                        p,
                        current@,
                        delete@,
                    )] == a.subvols[p]) by {
                        if within(p, current@) {
                            lemma_moved_back(p, current@, delete@);
                            assert(s1.subvols.contains_key(moved(p, current@, delete@)));
                        } else {
                            assert(s1.subvols.contains_key(p));
                        }
                    }
                }
            }
            return Err(e);
        },
    }
    let mut i: usize = 0;
    while i < found.len()
        invariant
            i <= found.len(),
            nested == path_views(found@),
            a == old(backend).state(),
            sane ==> a.subvols.contains_key(snap@),
            backend.reliable() == old(backend).reliable(),
            sane == all_apart(current@, delete@, snap@),
            can_rename(a, current@, delete@),
            is_nesting(a, current@, nested),
            new.parent_uuid == Some(a.subvols[snap@].uuid),
            !new.readonly,
            sane ==> backend.state() == between(
                a,
                current@,
                delete@,
                snap@,
                new,
                nested,
                i as int,
            ),
        decreases found.len() - i,
    {
        let to = &found[i];
        proof {
            assert(nested[i as int] == to@);
            assert(is_nested(a, current@, nested[i as int]));
            lemma_within_self(to@, current@);
            if sane {
                lemma_between_step(a, current@, delete@, snap@, new, nested, i as int);
                lemma_between_none_lost(a, current@, delete@, snap@, new, nested, i as int);
                lemma_between_files(a, current@, delete@, snap@, new, nested, i as int);
            }
        }
        let from = to.rebase(current, delete);
        match to.parent() {
            Some(parent) => {
                match backend.create_dir_all(&parent) {
                    Ok(_) => {
                        proof {
                            lemma_within_self(parent@, parent@);
                        }
                    },
                    Err(e) => {
                        return Err(e);
                    },
                }
            },
            None => {},
        }
        match backend.rename_subvolume(&from, to) {
            Ok(_) => {},
            Err(e) => {
                return Err(e);
            },
        }
        i = i + 1;
    }
    proof {
        if sane {
            lemma_between_end(a, current@, delete@, snap@, new, nested);
        }
    }
    Ok(())
}

/// Where the live subvolume of a part lies.
pub open spec fn live_path(toplevel: PathView, subvol: Seq<char>) -> PathView {
    path_join(toplevel, subvol)
}

/// The name of the DELETE marker of a subvolume.
pub open spec fn marker_name(subvol: Seq<char>, ts: Seq<char>) -> Seq<char> {
    subvol + "-"@ + DELETE_STRAIN@ + "-"@ + ts
}

/// Where the DELETE marker of a subvolume lies.
pub open spec fn marker_path(toplevel: PathView, subvol: Seq<char>, ts: Seq<char>) -> PathView {
    path_join(toplevel, marker_name(subvol, ts))
}

/// What a restore works on: the strain's subvolumes, the snapshot and the
/// marker's timestamp.
pub struct RestoreJob {
    pub config: ConfigView,
    pub toplevel: PathView,
    pub strain: Seq<char>,
    pub id: Seq<char>,
    pub ts: Seq<char>,
    pub subs: Seq<Seq<char>>,
}

impl RestoreJob {
    /// Where the live subvolume `i` lies.
    pub open spec fn live(self, i: int) -> PathView {
        live_path(self.toplevel, self.subs[i])
    }

    /// Where the DELETE marker of subvolume `i` is put.
    pub open spec fn marker(self, i: int) -> PathView {
        marker_path(self.toplevel, self.subs[i], self.ts)
    }

    /// Where the snapshot of subvolume `i` lies.
    pub open spec fn snap(self, i: int) -> PathView {
        part_path(self.config, self.toplevel, self.strain, self.id, self.subs[i])
    }

    /// Where the snapshot of the EFI partition lies.
    pub open spec fn efi_snap(self) -> PathView {
        part_path(
            self.config,
            self.toplevel,
            self.strain,
            self.id,
            self.config.sys.staging_subvol,
        )
    }

    /// Where the EFI partition is mounted.
    pub open spec fn efi_mount(self) -> PathView {
        crate::path::path_of(self.config.sys.efi_mount)
    }

    /// Whether no live subvolume, marker and snapshot of one part overlap.
    pub open spec fn sane(self) -> bool {
        forall|i: int|
            0 <= i < self.subs.len() ==> all_apart(
                #[trigger] self.live(i),
                self.marker(i),
                self.snap(i),
            )
    }

    /// Whether the restore can be carried out in `st`: live subvolumes and
    /// snapshots exist and the markers have free places.
    pub open spec fn possible(self, st: FsState) -> bool {
        &&& self.sane()
        &&& forall|i: int|
            0 <= i < self.subs.len() ==> st.subvols.contains_key(#[trigger] self.live(i))
                && st.subvols.contains_key(self.snap(i)) && can_rename(
                st,
                self.live(i),
                self.marker(i),
            ) && is_beside(self.live(i), self.marker(i))
        &&& forall|i: int, j: int|
            0 <= i < self.subs.len() && 0 <= j < self.subs.len() && i != j ==> !within(
                #[trigger] self.marker(i),
                #[trigger] self.marker(j),
            )
    }

    /// Whether each state comes from the one before by swapping the next
    /// subvolume for a copy of its snapshot.
    pub open spec fn is_run(self, states: Seq<FsState>, n: nat) -> bool {
        &&& states.len() == n + 1
        &&& forall|i: int|
            0 <= i < n ==> swapped(
                #[trigger] states[i],
                states[i + 1],
                self.live(i),
                self.marker(i),
                self.snap(i),
            )
    }

    /// Whether `b` is `a` after the first `n` subvolumes were swapped for
    /// copies of their snapshots.
    pub open spec fn swaps(self, a: FsState, b: FsState, n: nat) -> bool {
        exists|states: Seq<FsState>| #[trigger]
            self.is_run(states, n) && states[0] == a && states[n as int] == b
    }
}

/// The parts of a snapshot that are not on disk.
pub open spec fn absent_parts(
    st: FsState,
    c: ConfigView,
    toplevel: PathView,
    strain: Seq<char>,
    id: Seq<char>,
    parts: Seq<Seq<char>>,
) -> Seq<Seq<char>>
    decreases parts.len(),
{
    if parts.len() == 0 {
        Seq::empty()
    } else {
        let rest = absent_parts(st, c, toplevel, strain, id, parts.drop_last());
        if st.subvols.contains_key(part_path(c, toplevel, strain, id, parts.last())) {
            rest
        } else {
            rest.push(parts.last())
        }
    }
}

proof fn lemma_absent_none(
    st: FsState,
    c: ConfigView,
    toplevel: PathView,
    strain: Seq<char>,
    id: Seq<char>,
    parts: Seq<Seq<char>>,
)
    requires
        forall|i: int|
            0 <= i < parts.len() ==> st.subvols.contains_key(
                part_path(c, toplevel, strain, id, #[trigger] parts[i]),
            ),
    ensures
        absent_parts(st, c, toplevel, strain, id, parts).len() == 0,
    decreases parts.len(),
{
    if parts.len() > 0 {
        assert(parts[parts.len() - 1] == parts.last());
        assert forall|i: int| 0 <= i < parts.drop_last().len() implies st.subvols.contains_key(
            part_path(c, toplevel, strain, id, #[trigger] parts.drop_last()[i]),
        ) by {
            assert(parts.drop_last()[i] == parts[i]);
        }
        lemma_absent_none(st, c, toplevel, strain, id, parts.drop_last());
    }
}

fn missing_parts<B: FileSystemBackend>(
    config: &Config,
    backend: &B,
    toplevel: &FsPath,
    strain: &str,
    id: &SnapshotId,
    parts: &Vec<String>,
) -> (r: Vec<String>)
    ensures
        backend.reliable() ==> views(r@) == absent_parts(
            backend.state(),
            config@,
            toplevel@,
            strain@,
            id@,
            views(parts@),
        ),
        r@.len() == 0 ==> forall|i: int|
            0 <= i < parts@.len() ==> backend.state().subvols.contains_key(
                part_path(config@, toplevel@, strain@, id@, #[trigger] views(parts@)[i]),
            ),
{
    let dir = snapshot_dir(config, toplevel);
    let ghost st = backend.state();
    let ghost all = views(parts@);
    let mut missing: Vec<String> = Vec::new();
    let mut i: usize = 0;
    proof {
        assert(all.take(0) =~= Seq::empty());
        assert(views(missing@) =~= Seq::empty());
    }
    while i < parts.len()
        invariant
            i <= parts.len(),
            all == views(parts@),
            st == backend.state(),
            dir@ == snap_dir_of(config@, toplevel@),
            backend.reliable() ==> views(missing@) == absent_parts(
                st,
                config@,
                toplevel@,
                strain@,
                id@,
                all.take(i as int),
            ),
            missing@.len() == 0 ==> forall|j: int|
                0 <= j < i ==> st.subvols.contains_key(
                    part_path(config@, toplevel@, strain@, id@, #[trigger] all[j]),
                ),
        decreases parts.len() - i,
    {
        let part = parts[i].as_str();
        let path = dir.join(id.snapshot_name(part, strain).as_str());
        proof {
            assert(all[i as int] == part@);
            assert(all.take(i + 1).drop_last() =~= all.take(i as int));
            assert(all.take(i + 1).last() == part@);
        }
        if !subvol_exists(backend, &path) {
            let item: String = parts[i].clone();
            proof {
                lemma_views_push(missing@, item);
            }
            missing.push(item);
        }
        i = i + 1;
    }
    assert(all.take(all.len() as int) =~= all);
    missing
}

/// Where a package manager's stale lock file lies after a restore.
pub open spec fn lock_path(c: ConfigView, toplevel: PathView) -> PathView {
    path_join(path_join(toplevel, c.sys.rootfs_subvol), LOCK_FILE@)
}

/// Remove stale package-manager runtime files from a freshly restored rootfs
/// subvolume. A file that cannot be removed is left.
pub fn cleanup_stale_runtime_files<B: FileSystemBackend>(backend: &mut B, rootfs: &FsPath)
    ensures
        final(backend).reliable() == old(backend).reliable(),
        final(backend).state() == old(backend).state() || final(backend).state() == (FsState {
            files: old(backend).state().files.remove(path_join(rootfs@, LOCK_FILE@)),
            ..old(backend).state()
        }),
        old(backend).reliable() ==> !final(backend).state().files.contains_key(
            path_join(rootfs@, LOCK_FILE@),
        ),
{
    let managers = all_package_managers();
    let files = managers[0].stale_runtime_files();
    assert(views(files@)[0] == LOCK_FILE@);
    assert(views(files@).len() == 1);
    let target = rootfs.join(files[0].as_str());
    let _ = backend.remove_file(&target);
}

/// The state without a package manager's stale lock.
pub open spec fn unlocked(a: FsState, c: ConfigView, toplevel: PathView) -> FsState {
    FsState { files: a.files.remove(lock_path(c, toplevel)), ..a }
}

/// Whether `b` is `a` after the last steps of a restore: the package manager's
/// stale lock may be gone and, where EFI is restored, the EFI partition
/// mirrors its snapshot. Nothing else changed.
pub open spec fn finished(a: FsState, b: FsState, job: RestoreJob, efi: bool) -> bool {
    if efi {
        exists|k: FsState|
            (k == a || k == unlocked(a, job.config, job.toplevel)) && #[trigger] is_synced(
                k,
                b,
                job.efi_snap(),
                job.efi_mount(),
            )
    } else {
        b == a || b == unlocked(a, job.config, job.toplevel)
    }
}

/// Whether `b` differs from `a` in no more than the package manager's stale
/// lock and files on the EFI partition.
pub open spec fn unfinished(a: FsState, b: FsState, job: RestoreJob) -> bool {
    &&& b.subvols == a.subvols
    &&& b.default_subvol == a.default_subvol
    &&& forall|p: PathView|
        p != lock_path(job.config, job.toplevel) && !under(p, job.efi_mount())
            ==> #[trigger] file_at(b, p) == file_at(a, p)
}

/// The last steps of a restore touch no more than the stale lock and the EFI
/// partition.
pub proof fn law_finish_spares_the_rest(a: FsState, b: FsState, job: RestoreJob, efi: bool)
    requires
        finished(a, b, job, efi),
    ensures
        unfinished(a, b, job),
{
    if efi {
        let k = choose|k: FsState|
            (k == a || k == unlocked(a, job.config, job.toplevel)) && #[trigger] is_synced(
                k,
                b,
                job.efi_snap(),
                job.efi_mount(),
            );
        lemma_unfinished(a, k, b, job);
    }
}

proof fn lemma_unfinished(a: FsState, k: FsState, b: FsState, job: RestoreJob)
    requires
        k == a || k == unlocked(a, job.config, job.toplevel),
        b.subvols == k.subvols,
        b.default_subvol == k.default_subvol,
        forall|p: PathView|
            !under(p, job.efi_mount()) ==> (#[trigger] b.files.contains_key(p)
                == k.files.contains_key(p)),
        forall|p: PathView|
            !under(p, job.efi_mount()) && k.files.contains_key(p) ==> #[trigger] b.files[p]
                == k.files[p],
    ensures
        unfinished(a, b, job),
{
    assert forall|p: PathView|
        p != lock_path(job.config, job.toplevel) && !under(
            p,
            job.efi_mount(),
        ) implies #[trigger] file_at(b, p) == file_at(a, p) by {
        assert(file_at(k, p) == file_at(a, p));
        assert(b.files.contains_key(p) == k.files.contains_key(p));
    }
}

/// Orchestrate a full restore from a snapshot, with the given timestamp for
/// the DELETE markers.
///
/// 1. All parts of the snapshot must exist.
/// 2. Each subvolume of the strain is renamed to its DELETE marker, and a
///    writable snapshot of the chosen one takes its place. Subvolumes nested
///    in it are moved back to where they were.
/// 3. Stale package-manager runtime files are stripped.
/// 4. The EFI partition is synced from the snapshot.
pub fn restore_snapshot_at<B: FileSystemBackend>(
    config: &Config,
    backend: &mut B,
    toplevel: &FsPath,
    snapshot: &SnapshotInfo,
    ts: &SnapshotId,
) -> (r: Result<()>)
    ensures
        final(backend).reliable() == old(backend).reliable(),
        lookup(config@.strain, snapshot@.strain) is None ==> (r matches Err(e) && e@
            == ErrorView::Config("unknown strain: "@ + snapshot@.strain) && final(backend).state()
            == old(backend).state()),
        ({
            let a = old(backend).state();
            let b = final(backend).state();
            let st = lookup(config@.strain, snapshot@.strain);
            let parts = strain_parts(config@, st->0);
            let absent = absent_parts(
                a,
                config@,
                toplevel@,
                snapshot@.strain,
                snapshot@.id,
                parts,
            );
            let job = job_of(config@, toplevel@, snapshot@, ts@);
            let efi = snapshot@.efi_synced && config@.sys.efi_enabled;
            st is Some ==> {
                &&& old(backend).reliable() && absent.len() > 0 ==> (r matches Err(e) && e@ == (
                ErrorView::IncompleteSnapshot { id: snapshot@.id, missing: absent }) && b == a)
                &&& r is Ok && job.sane() ==> restored(a, b, job, efi)
                &&& r is Err && job.sane() ==> interrupted(a, b, job)
                &&& old(backend).reliable() && absent.len() == 0 && job.possible(a) && (efi
                    ==> efi_apart(job)) ==> r is Ok
            }
        }),
        r is Ok && old(backend).reliable() && !under(
            path_join(path_join(toplevel@, config@.sys.rootfs_subvol), "var/lib/pacman/db.lck"@),
            path_of(config@.sys.efi_mount),
        ) ==> !final(backend).state().files.contains_key(
            path_join(path_join(toplevel@, config@.sys.rootfs_subvol), "var/lib/pacman/db.lck"@),
        ),
        r matches Err(e) ==> (e@ is IncompleteSnapshot ==> {
            let missing = e@->missing;
            let absent = absent_parts(
                old(backend).state(),
                config@,
                toplevel@,
                snapshot@.strain,
                snapshot@.id,
                strain_parts(config@, lookup(config@.strain, snapshot@.strain)->0),
            );
            &&& e@ == (ErrorView::IncompleteSnapshot { id: snapshot@.id, missing })
            &&& missing.len() > 0
            &&& old(backend).reliable() ==> missing == absent
            &&& final(backend).state() == old(backend).state()
        }),
        r is Ok && old(backend).reliable() && !(snapshot@.efi_synced && config@.sys.efi_enabled
            && under(
            lock_path(config@, toplevel@),
            crate::path::path_of(config@.sys.efi_mount),
        )) ==> !final(backend).state().files.contains_key(lock_path(config@, toplevel@)),
{
    let ghost a = backend.state();
    let ghost job = job_of(config@, toplevel@, snapshot@, ts@);
    let strain = snapshot.strain.as_str();
    let id = &snapshot.id;
    let s = match config.strain(strain) {
        Ok(s) => s,
        Err(e) => {
            return Err(e);
        },
    };
    proof {
        lemma_swaps_none(a, job);
        lemma_interrupted_start(a, job);
    }
    let mut parts = crate::text::clone_texts(&s.subvolumes);
    if s.efi && config.sys.efi.enabled {
        let staging: String = config.sys.efi.staging_subvol.clone();
        proof {
            lemma_views_push(parts@, staging);
        }
        parts.push(staging);
    }
    let missing = missing_parts(config, backend, toplevel, strain, id, &parts);
    if missing.len() > 0 {
        return Err(
            RevenantError::IncompleteSnapshot { id: id.as_str().to_owned(), missing },
        );
    }
    proof {
        lemma_absent_none(
            a,
            config@,
            toplevel@,
            snapshot@.strain,
            snapshot@.id,
            strain_parts(config@, s@),
        );
    }
    let dir = snapshot_dir(config, toplevel);
    let mut i: usize = 0;
    while i < s.subvolumes.len()
        invariant
            i <= s.subvolumes.len(),
            a == old(backend).state(),
            backend.reliable() == old(backend).reliable(),
            job == job_of(config@, toplevel@, snapshot@, ts@),
            lookup(config@.strain, snapshot@.strain) == Some(s@),
            job.subs == views(s.subvolumes@),
            strain@ == snapshot@.strain,
            id@ == snapshot@.id,
            dir@ == snap_dir_of(config@, toplevel@),
            absent_parts(
                a,
                config@,
                toplevel@,
                snapshot@.strain,
                snapshot@.id,
                strain_parts(config@, s@),
            ).len() == 0,
            job.sane() ==> job.swaps(a, backend.state(), i as nat),
            job.sane() ==> forall|p: PathView| #[trigger]
                backend.state().subvols.contains_key(p) <==> a.subvols.contains_key(p)
                    || exists|j: int| 0 <= j < i && p == #[trigger] job.marker(j),
        decreases s.subvolumes.len() - i,
    {
        let subvol = s.subvolumes[i].as_str();
        let current = toplevel.join(subvol);
        let name = cat5(subvol, "-", DELETE_STRAIN, "-", ts.as_str());
        let marker = toplevel.join(name.as_str());
        let snap = dir.join(id.snapshot_name(subvol, strain).as_str());
        let ghost before = backend.state();
        proof {
            assert(job.subs[i as int] == subvol@);
            assert(current@ == job.live(i as int));
            assert(marker@ == job.marker(i as int));
            assert(snap@ == job.snap(i as int));
            if job.possible(a) {
                lemma_still_possible(a, before, job, i as int);
            }
        }
        match swap_subvolume(backend, &current, &marker, &snap) {
            Ok(_) => {
                proof {
                    if job.sane() {
                        assert(all_apart(
                            job.live(i as int),
                            job.marker(i as int),
                            job.snap(i as int),
                        ));
                        let now = backend.state();
                        lemma_swaps_step(a, before, now, job, i as nat);
                        assert forall|p: PathView| #[trigger]
                            now.subvols.contains_key(p) <==> a.subvols.contains_key(p) || exists|
                                j: int,
                            |
                                0 <= j < i + 1 && p == #[trigger] job.marker(j) by {
                            assert(before.subvols.contains_key(p) <==> a.subvols.contains_key(p)
                                || exists|j: int| 0 <= j < i && p == #[trigger] job.marker(j));
                            if p == job.marker(i as int) {
                                assert(0 <= i < i + 1 && p == job.marker(i as int));
                            }
                        }
                    }
                }
            },
            Err(e) => {
                proof {
                    if job.sane() {
                        assert(all_apart(
                            job.live(i as int),
                            job.marker(i as int),
                            job.snap(i as int),
                        ));
                        lemma_interrupted(a, before, backend.state(), job, i as int);
                    }
                }
                return Err(e);
            },
        }
        i = i + 1;
    }
    let ghost m = backend.state();
    let rootfs = toplevel.join(config.sys.rootfs_subvol.as_str());
    cleanup_stale_runtime_files(backend, &rootfs);
    let ghost cleaned = backend.state();
    let efi: bool = snapshot.efi_synced && config.sys.efi.enabled;
    if efi {
        let staging = config.sys.efi.staging_subvol.as_str();
        let snap = dir.join(id.snapshot_name(staging, strain).as_str());
        let mount = FsPath::new(config.sys.efi.mount_point.as_str());
        match backend.sync_tree(&snap, &mount) {
            Ok(_) => {},
            Err(e) => {
                proof {
                    if job.sane() {
                        lemma_unfinished(m, cleaned, backend.state(), job);
                        lemma_interrupted_end(a, m, backend.state(), job);
                    }
                }
                return Err(e);
            },
        }
    }
    proof {
        if job.sane() {
            let b = backend.state();
            if efi {
                assert(is_synced(cleaned, b, job.efi_snap(), job.efi_mount()));
            }
            assert(finished(m, b, job, efi));
            assert(job.swaps(a, m, job.subs.len()));
            assert(restored(a, b, job, efi));
        }
    }
    Ok(())
}

/// The restore of a snapshot.
pub open spec fn job_of(
    c: ConfigView,
    toplevel: PathView,
    s: InfoView,
    ts: Seq<char>,
) -> RestoreJob {
    RestoreJob {
        config: c,
        toplevel,
        strain: s.strain,
        id: s.id,
        ts,
        subs: lookup(c.strain, s.strain)->0.subvolumes,
    }
}

/// Whether `b` is `a` after the restore.
pub open spec fn restored(a: FsState, b: FsState, job: RestoreJob, efi: bool) -> bool {
    exists|m: FsState| #[trigger]
        job.swaps(a, m, job.subs.len()) && finished(m, b, job, efi)
}

/// Whether `b` is what an interrupted restore may leave of `a`: some
/// subvolumes are swapped, and of the one being swapped nothing is lost; or all
/// are, and no more than the stale lock and the EFI partition is touched.
pub open spec fn interrupted(a: FsState, b: FsState, job: RestoreJob) -> bool {
    exists|m: FsState, k: nat|
        k <= job.subs.len() && #[trigger] job.swaps(a, m, k) && (unfinished(m, b, job) || (k
            < job.subs.len() && none_lost(m, b, job.live(k as int), job.marker(k as int))
            && files_kept(m, b, job.live(k as int), job.marker(k as int))))
}

/// Whether the EFI snapshot and the EFI partition do not overlap.
pub open spec fn efi_apart(job: RestoreJob) -> bool {
    apart(job.efi_snap(), job.efi_mount())
}

proof fn lemma_swaps_step(a: FsState, m: FsState, b: FsState, job: RestoreJob, n: nat)
    requires
        job.swaps(a, m, n),
        swapped(m, b, job.live(n as int), job.marker(n as int), job.snap(n as int)),
    ensures
        job.swaps(a, b, n + 1),
{
    let states = choose|states: Seq<FsState>| #[trigger]
        job.is_run(states, n) && states[0] == a && states[n as int] == m;
    let more = states.push(b);
    assert forall|i: int| 0 <= i < n + 1 implies swapped(
        #[trigger] more[i],
        more[i + 1],
        job.live(i),
        job.marker(i),
        job.snap(i),
    ) by {
        if i < n {
            assert(more[i] == states[i] && more[i + 1] == states[i + 1]);
        }
    }
    assert(job.is_run(more, n + 1));
}

proof fn lemma_swaps_none(a: FsState, job: RestoreJob)
    ensures
        job.swaps(a, a, 0),
{
    assert(job.is_run(seq![a], 0));
}

proof fn lemma_interrupted_start(a: FsState, job: RestoreJob)
    ensures
        interrupted(a, a, job),
{
    lemma_swaps_none(a, job);
}

proof fn lemma_interrupted(a: FsState, m: FsState, b: FsState, job: RestoreJob, k: int)
    requires
        0 <= k < job.subs.len(),
        job.swaps(a, m, k as nat),
        none_lost(m, b, job.live(k), job.marker(k)),
        files_kept(m, b, job.live(k), job.marker(k)),
    ensures
        interrupted(a, b, job),
{
    let n = k as nat;
    assert(job.swaps(a, m, n));
    assert(none_lost(m, b, job.live(n as int), job.marker(n as int)));
    assert(files_kept(m, b, job.live(n as int), job.marker(n as int)));
}

proof fn lemma_interrupted_end(a: FsState, m: FsState, b: FsState, job: RestoreJob)
    requires
        job.swaps(a, m, job.subs.len()),
        unfinished(m, b, job),
    ensures
        interrupted(a, b, job),
{
}

proof fn lemma_still_possible(a: FsState, s: FsState, job: RestoreJob, i: int)
    requires
        job.possible(a),
        0 <= i < job.subs.len(),
        forall|p: PathView| #[trigger]
            s.subvols.contains_key(p) <==> a.subvols.contains_key(p) || exists|j: int|
                0 <= j < i && p == #[trigger] job.marker(j),
    ensures
        all_apart(job.live(i), job.marker(i), job.snap(i)),
        can_rename(s, job.live(i), job.marker(i)),
        is_beside(job.live(i), job.marker(i)),
        s.subvols.contains_key(job.snap(i)),
{
    assert(a.subvols.contains_key(job.live(i)));
    assert(can_rename(a, job.live(i), job.marker(i)));
    assert forall|q: PathView| #[trigger] s.subvols.contains_key(q) implies !within(
        q,
        job.marker(i),
    ) by {
        if !a.subvols.contains_key(q) {
            let j = choose|j: int| 0 <= j < i && q == #[trigger] job.marker(j);
            assert(!within(job.marker(j), job.marker(i)));
        }
    }
}

/// Whether `b` is `a` after the restore of a snapshot with the given timestamp.
pub open spec fn restored_at(
    a: FsState,
    b: FsState,
    c: ConfigView,
    toplevel: PathView,
    s: InfoView,
    ts: Seq<char>,
) -> bool {
    let job = job_of(c, toplevel, s, ts);
    job.sane() ==> restored(a, b, job, s.efi_synced && c.sys.efi_enabled)
}

/// Whether `b` is what an interrupted restore of a snapshot, with the given
/// timestamp, may leave of `a`.
pub open spec fn interrupted_at(
    a: FsState,
    b: FsState,
    c: ConfigView,
    toplevel: PathView,
    s: InfoView,
    ts: Seq<char>,
) -> bool {
    let job = job_of(c, toplevel, s, ts);
    job.sane() ==> interrupted(a, b, job)
}

/// Whether a snapshot can be restored with the given timestamp: its parts are
/// there, the places of the DELETE markers are free, and the EFI partition is
/// apart from its copy.
pub open spec fn restorable_at(
    a: FsState,
    c: ConfigView,
    toplevel: PathView,
    s: InfoView,
    ts: Seq<char>,
) -> bool {
    let job = job_of(c, toplevel, s, ts);
    &&& lookup(c.strain, s.strain) is Some
    &&& absent_parts(
        a,
        c,
        toplevel,
        s.strain,
        s.id,
        strain_parts(c, lookup(c.strain, s.strain)->0),
    ).len() == 0
    &&& job.possible(a)
    &&& s.efi_synced && c.sys.efi_enabled ==> efi_apart(job)
}

/// Whether a snapshot can be restored whatever the clock shows.
pub open spec fn always_restorable(
    a: FsState,
    c: ConfigView,
    toplevel: PathView,
    s: InfoView,
) -> bool {
    forall|ts: Seq<char>| #[trigger] is_clock_id(ts) ==> restorable_at(a, c, toplevel, s, ts)
}

/// Orchestrate a full restore from a snapshot, now.
///
/// The markers' timestamp is the clock's; what is done with it is what
/// [`restore_snapshot_at`] does.
pub fn restore_snapshot<B: FileSystemBackend>(
    config: &Config,
    backend: &mut B,
    toplevel: &FsPath,
    snapshot: &SnapshotInfo,
) -> (r: Result<()>)
    ensures
        final(backend).reliable() == old(backend).reliable(),
        lookup(config@.strain, snapshot@.strain) is None ==> (r matches Err(e) && e@
            == ErrorView::Config("unknown strain: "@ + snapshot@.strain) && final(backend).state()
            == old(backend).state()),
        r is Ok ==> exists|ts: Seq<char>|
            is_clock_id(ts) && #[trigger] restored_at(
                old(backend).state(),
                final(backend).state(),
                config@,
                toplevel@,
                snapshot@,
                ts,
            ),
        r is Ok && old(backend).reliable() && !under(
            path_join(path_join(toplevel@, config@.sys.rootfs_subvol), "var/lib/pacman/db.lck"@),
            path_of(config@.sys.efi_mount),
        ) ==> !final(backend).state().files.contains_key(
            path_join(path_join(toplevel@, config@.sys.rootfs_subvol), "var/lib/pacman/db.lck"@),
        ),
        r is Err ==> exists|ts: Seq<char>|
            is_clock_id(ts) && #[trigger] interrupted_at(
                old(backend).state(),
                final(backend).state(),
                config@,
                toplevel@,
                snapshot@,
                ts,
            ),
        lookup(config@.strain, snapshot@.strain) matches Some(st) ==> {
            let absent = absent_parts(
                old(backend).state(),
                config@,
                toplevel@,
                snapshot@.strain,
                snapshot@.id,
                strain_parts(config@, st),
            );
            old(backend).reliable() && absent.len() > 0 ==> (r matches Err(e) && e@ == (
            ErrorView::IncompleteSnapshot { id: snapshot@.id, missing: absent }) && final(
                backend).state() == old(backend).state())
        },
        old(backend).reliable() && always_restorable(
            old(backend).state(),
            config@,
            toplevel@,
            snapshot@,
        ) ==> r is Ok,
        r matches Err(e) ==> (e@ is IncompleteSnapshot ==> {
            let missing = e@->missing;
            let absent = absent_parts(
                old(backend).state(),
                config@,
                toplevel@,
                snapshot@.strain,
                snapshot@.id,
                strain_parts(config@, lookup(config@.strain, snapshot@.strain)->0),
            );
            &&& e@ == (ErrorView::IncompleteSnapshot { id: snapshot@.id, missing })
            &&& missing.len() > 0
            &&& old(backend).reliable() ==> missing == absent
            &&& final(backend).state() == old(backend).state()
        }),
        r is Ok && old(backend).reliable() && !(snapshot@.efi_synced && config@.sys.efi_enabled
            && under(
            lock_path(config@, toplevel@),
            crate::path::path_of(config@.sys.efi_mount),
        )) ==> !final(backend).state().files.contains_key(lock_path(config@, toplevel@)),
{
    let ghost a = backend.state();
    let ts = SnapshotId::now();
    let r = restore_snapshot_at(config, backend, toplevel, snapshot, &ts);
    proof {
        let job = job_of(config@, toplevel@, snapshot@, ts@);
        if lookup(config@.strain, snapshot@.strain) is None {
            lemma_interrupted_start(a, job);
        }
        assert(is_clock_id(ts@));
        let b = backend.state();
        if r is Ok {
            assert(restored_at(a, b, config@, toplevel@, snapshot@, ts@));
        } else {
            assert(interrupted_at(a, b, config@, toplevel@, snapshot@, ts@));
        }
    }
    r
}

proof fn lemma_inside_owned(a: FsState, root: PathView, p: PathView)
    ensures
        owned(a, root, p) <==> a.files.contains_key(p) && under(p, root) && !inside(a, root, p),
{
    if a.files.contains_key(p) && under(p, root) {
        if owned(a, root, p) && inside(a, root, p) {
            let q = choose|q: PathView| #[trigger]
                a.subvols.contains_key(q) && under(q, root) && within(p, q);
            assert(a.subvols.contains_key(q));
        }
    }
}

proof fn lemma_swap_inside(
    a: FsState,
    b: FsState,
    current: PathView,
    delete: PathView,
    snap: PathView,
    x: PathView,
)
    requires
        swapped(a, b, current, delete, snap),
        all_apart(current, delete, snap),
    ensures
        inside(b, current, x) == inside(a, current, x),
{
    if inside(a, current, x) {
        let q = choose|q: PathView| #[trigger]
            a.subvols.contains_key(q) && under(q, current) && within(x, q);
        assert(b.subvols.contains_key(q));
    }
    if inside(b, current, x) {
        let q = choose|q: PathView| #[trigger]
            b.subvols.contains_key(q) && under(q, current) && within(x, q);
        lemma_within_self(q, current);
        assert(q != delete);
        assert(a.subvols.contains_key(q));
    }
}

/// After a swap the live subvolume holds the snapshot's files, but for places
/// that a nested subvolume takes.
pub proof fn law_restore_brings_snapshot_files(
    a: FsState,
    b: FsState,
    current: PathView,
    delete: PathView,
    snap: PathView,
)
    requires
        swapped(a, b, current, delete, snap),
        all_apart(current, delete, snap),
    ensures
        forall|x: PathView| #[trigger]
            owned(b, current, x) ==> owned(a, snap, moved(x, current, snap)) && b.files[x]
                == a.files[moved(x, current, snap)],
        forall|y: PathView| #[trigger]
            owned(a, snap, y) && !inside(a, current, moved(y, snap, current)) ==> owned(
                b,
                current,
                moved(y, snap, current),
            ),
{
    assert forall|x: PathView| #[trigger] owned(b, current, x) implies owned(
        a,
        snap,
        moved(x, current, snap),
    ) && b.files[x] == a.files[moved(x, current, snap)] by {
        lemma_inside_owned(b, current, x);
        lemma_swap_inside(a, b, current, delete, snap, x);
        lemma_within_self(x, current);
        lemma_apart(current, delete, x);
        assert(file_after(a, current, delete, snap, x) == Some(b.files[x]));
    }
    assert forall|y: PathView| #[trigger]
        owned(a, snap, y) && !inside(a, current, moved(y, snap, current)) implies owned(
        b,
        current,
        moved(y, snap, current),
    ) by {
        let x = moved(y, snap, current);
        lemma_within_self(y, snap);
        lemma_moved_back(y, snap, current);
        lemma_apart(current, delete, x);
        lemma_swap_inside(a, b, current, delete, snap, x);
        assert(file_after(a, current, delete, snap, x) is Some);
        assert(b.files.contains_key(x));
        lemma_inside_owned(b, current, x);
    }
}

/// The DELETE marker holds exactly the files that the live subvolume held, so
/// the state before a restore can be recovered from it.
pub proof fn law_marker_keeps_previous_files(
    a: FsState,
    b: FsState,
    current: PathView,
    delete: PathView,
    snap: PathView,
)
    requires
        swapped(a, b, current, delete, snap),
        all_apart(current, delete, snap),
        forall|q: PathView| #[trigger] a.subvols.contains_key(q) ==> !within(q, delete),
    ensures
        same_files(b, delete, a, current),
        b.subvols[delete] == a.subvols[current],
{
    assert forall|x: PathView| #[trigger] owned(b, delete, x) implies owned(
        a,
        current,
        moved(x, delete, current),
    ) && b.files[x] == a.files[moved(x, delete, current)] by {
        let y = moved(x, delete, current);
        lemma_within_self(x, delete);
        lemma_moved_back(x, delete, current);
        assert(file_after(a, current, delete, snap, x) == Some(b.files[x]));
        lemma_inside_owned(a, current, y);
    }
    assert forall|y: PathView| #[trigger] owned(a, current, y) implies owned(
        b,
        delete,
        moved(y, current, delete),
    ) by {
        let x = moved(y, current, delete);
        lemma_within_self(y, current);
        lemma_moved_back(y, current, delete);
        lemma_inside_owned(a, current, y);
        assert(file_after(a, current, delete, snap, x) is Some);
        assert(b.files.contains_key(x));
        assert forall|q: PathView| #[trigger]
            b.subvols.contains_key(q) && under(q, delete) implies !within(x, q) by {
            lemma_within_self(q, delete);
            assert(q != delete);
            assert(a.subvols.contains_key(q));
        }
    }
}

/// Subvolumes nested in the live one keep their place, their identity and
/// their files across a restore.
pub proof fn law_nested_survive_restore(
    a: FsState,
    b: FsState,
    current: PathView,
    delete: PathView,
    snap: PathView,
    q: PathView,
    p: PathView,
)
    requires
        swapped(a, b, current, delete, snap),
        all_apart(current, delete, snap),
        a.subvols.contains_key(q),
        under(q, current),
        within(p, q),
    ensures
        b.subvols.contains_key(q),
        b.subvols[q] == a.subvols[q],
        file_at(b, p) == file_at(a, p),
{
    lemma_within_self(q, current);
    lemma_within_trans(p, q, current);
    lemma_apart(current, delete, p);
    assert(inside(a, current, p));
    assert(b.files.contains_key(p) <==> file_after(a, current, delete, snap, p) is Some);
    assert(q != current);
}

/// A snapshot brings back what it captured: where a snapshot was a copy of the
/// live subvolume in `m` and still holds the same files in `s`, restoring it
/// gives the live subvolume the files it had in `m`, but for places that a
/// nested subvolume takes.
pub proof fn law_restore_undoes_changes(
    m: FsState,
    s: FsState,
    b: FsState,
    current: PathView,
    delete: PathView,
    snap: PathView,
)
    requires
        same_files(m, snap, m, current),
        same_files(s, snap, m, snap),
        swapped(s, b, current, delete, snap),
        all_apart(current, delete, snap),
    ensures
        forall|x: PathView| #[trigger]
            owned(b, current, x) ==> owned(m, current, x) && b.files[x] == m.files[x],
        forall|x: PathView| #[trigger]
            owned(m, current, x) && !inside(s, current, x) ==> owned(b, current, x),
{
    law_restore_brings_snapshot_files(s, b, current, delete, snap);
    assert forall|x: PathView| #[trigger] owned(b, current, x) implies owned(m, current, x)
        && b.files[x] == m.files[x] by {
        let y = moved(x, current, snap);
        lemma_within_self(x, current);
        lemma_moved_back(x, current, snap);
        assert(owned(s, snap, y));
        lemma_moved_self(y, snap);
        assert(owned(m, snap, y));
        assert(moved(y, snap, current) == x);
    }
    assert forall|x: PathView| #[trigger]
        owned(m, current, x) && !inside(s, current, x) implies owned(b, current, x) by {
        let y = moved(x, current, snap);
        lemma_within_self(x, current);
        lemma_moved_back(x, current, snap);
        assert(owned(m, snap, y));
        lemma_within_self(y, snap);
        lemma_moved_self(y, snap);
        assert(owned(s, snap, y));
        assert(moved(y, snap, current) == x);
    }
}

proof fn lemma_moved_self(p: PathView, base: PathView)
    requires
        within(p, base),
    ensures
        moved(p, base, base) == p,
{
    assert(base + p.skip(base.len() as int) =~= p);
}

/// After a whole restore every live subvolume is a writable clone of its
/// snapshot, the previous ones are at their DELETE markers, and no other
/// subvolume changed.
#[verifier::spinoff_prover]
pub proof fn law_restore_changes_only_its_subvolumes(
    a: FsState,
    b: FsState,
    job: RestoreJob,
    n: nat,
)
    requires
        job.swaps(a, b, n),
        n <= job.subs.len(),
        forall|i: int|
            0 <= i < job.subs.len() ==> a.subvols.contains_key(#[trigger] job.live(i))
                && a.subvols.contains_key(job.snap(i)),
        forall|i: int, j: int|
            0 <= i < job.subs.len() && 0 <= j < job.subs.len() && i != j ==> #[trigger] job.live(i)
                != #[trigger] job.live(j),
        forall|i: int, j: int|
            0 <= i < job.subs.len() && 0 <= j < job.subs.len() ==> #[trigger] job.live(i)
                != #[trigger] job.marker(j),
        forall|i: int, j: int|
            0 <= i < job.subs.len() && 0 <= j < job.subs.len() ==> #[trigger] job.live(i)
                != #[trigger] job.snap(j),
    ensures
        forall|p: PathView| #[trigger]
            b.subvols.contains_key(p) <==> a.subvols.contains_key(p) || exists|j: int|
                0 <= j < n && p == #[trigger] job.marker(j),
        forall|p: PathView| #[trigger]
            a.subvols.contains_key(p) && (forall|j: int| 0 <= j < n ==> p != #[trigger] job.live(j))
                ==> b.subvols[p] == a.subvols[p],
        forall|i: int|
            0 <= i < n ==> b.subvols[#[trigger] job.live(i)].parent_uuid == Some(
                a.subvols[job.snap(i)].uuid,
            ) && !b.subvols[job.live(i)].readonly && b.subvols[job.marker(i)]
                == a.subvols[job.live(i)],
    decreases n,
{
    let states = choose|states: Seq<FsState>| #[trigger]
        job.is_run(states, n) && states[0] == a && states[n as int] == b;
    if n > 0 {
        let k = (n - 1) as nat;
        let m = states[k as int];
        let first = states.drop_last();
        assert(job.is_run(first, k)) by {
            assert forall|i: int| 0 <= i < k implies swapped(
                #[trigger] first[i],
                first[i + 1],
                job.live(i),
                job.marker(i),
                job.snap(i),
            ) by {
                assert(first[i] == states[i] && first[i + 1] == states[i + 1]);
            }
        }
        assert(first[0] == a && first[k as int] == m);
        assert(job.swaps(a, m, k));
        law_restore_changes_only_its_subvolumes(a, m, job, k);
        let ki = k as int;
        assert(swapped(states[ki], states[ki + 1], job.live(ki), job.marker(ki), job.snap(ki)));
        let live = job.live(ki);
        let marker = job.marker(ki);
        let snap = job.snap(ki);
        assert forall|j: int| 0 <= j < k implies #[trigger] job.marker(j) != marker by {
            assert(m.subvols.contains_key(job.marker(j)));
        }
        assert forall|p: PathView| #[trigger] b.subvols.contains_key(p) <==>
            a.subvols.contains_key(p) || exists|j: int|
            0 <= j < n && p == #[trigger] job.marker(j) by {
            if p == marker {
                assert(0 <= ki < n && p == job.marker(ki));
            }
            if exists|j: int| 0 <= j < n && p == #[trigger] job.marker(j) {
                let j = choose|j: int| 0 <= j < n && p == #[trigger] job.marker(j);
                if j < k {
                    assert(m.subvols.contains_key(p));
                }
            }
        }
        assert(m.subvols[snap] == a.subvols[snap]) by {
            assert forall|j: int| 0 <= j < k implies snap != #[trigger] job.live(j) by {}
        }
        assert(m.subvols[live] == a.subvols[live]) by {
            assert forall|j: int| 0 <= j < k implies live != #[trigger] job.live(j) by {}
        }
        assert forall|i: int| 0 <= i < n implies b.subvols[#[trigger] job.live(i)].parent_uuid
            == Some(a.subvols[job.snap(i)].uuid) && !b.subvols[job.live(i)].readonly
            && b.subvols[job.marker(i)] == a.subvols[job.live(i)] by {
            if i < k {
                assert(m.subvols.contains_key(job.live(i)));
                assert(m.subvols.contains_key(job.marker(i)));
                assert(job.live(i) != live);
                assert(live != job.marker(i));
            }
        }
        assert forall|p: PathView| #[trigger]
            a.subvols.contains_key(p) && (forall|j: int|
                0 <= j < n ==> p != #[trigger] job.live(j)) implies b.subvols[p]
            == a.subvols[p] by {
            assert(p != job.live(ki));
            assert forall|j: int| 0 <= j < k implies p != #[trigger] job.live(j) by {}
            assert(m.subvols.contains_key(p));
        }
    }
}

/// After a restore the restored snapshot is the parent of the live rootfs: a
/// rootfs subvolume that is a clone of its snapshot subvolume has that
/// snapshot as its live parent.
pub proof fn law_restored_is_live_parent(
    b: FsState,
    c: ConfigView,
    toplevel: PathView,
    strain: Seq<char>,
    id: Seq<char>,
)
    requires
        strain.len() > 0,
        id_ok(id),
        is_component(name_text(c.sys.rootfs_subvol, strain, id)),
        b.subvols.contains_key(live_path(toplevel, c.sys.rootfs_subvol)),
        b.subvols.contains_key(part_path(c, toplevel, strain, id, c.sys.rootfs_subvol)),
        b.subvols[live_path(toplevel, c.sys.rootfs_subvol)].parent_uuid == Some(
            b.subvols[part_path(c, toplevel, strain, id, c.sys.rootfs_subvol)].uuid,
        ),
    ensures
        is_live_parent(
            b,
            c,
            toplevel,
            name_text(c.sys.rootfs_subvol, strain, id),
            strain,
            id,
        ),
{
    let root = c.sys.rootfs_subvol;
    let name = name_text(root, strain, id);
    lemma_join_component(snap_dir_of(c, toplevel), name);
    let prefix = root + "-"@;
    let rest = strain + seq!['-'] + id;
    reveal_strlit("-");
    assert("-"@ =~= seq!['-']);
    assert(name =~= prefix + rest);
    assert(name.subrange(0, prefix.len() as int) =~= prefix);
    assert(name.subrange(prefix.len() as int, name.len() as int) =~= rest);
    lemma_trailing(strain, id);
}

/// Where subvolumes have different UUIDs there is at most one live parent.
pub proof fn law_live_parent_is_unique(
    st: FsState,
    c: ConfigView,
    toplevel: PathView,
    n1: Seq<char>,
    s1: Seq<char>,
    id1: Seq<char>,
    n2: Seq<char>,
    s2: Seq<char>,
    id2: Seq<char>,
)
    requires
        is_live_parent(st, c, toplevel, n1, s1, id1),
        is_live_parent(st, c, toplevel, n2, s2, id2),
        forall|p: PathView, q: PathView|
            #![trigger st.subvols.contains_key(p), st.subvols.contains_key(q)]
            st.subvols.contains_key(p) && st.subvols.contains_key(q) && st.subvols[p].uuid
                == st.subvols[q].uuid ==> p == q,
    ensures
        n1 == n2,
        s1 == s2,
        id1 == id2,
{
    let dir = snap_dir_of(c, toplevel);
    assert(dir.push(n1) == dir.push(n2));
    assert(dir.push(n1).last() == n1);
    assert(dir.push(n2).last() == n2);
}

} // verus!
