//! How operations change what a filesystem holds.

use vstd::prelude::*;

use crate::backend::{
    after_failed_snapshot, can_delete, can_snapshot, owned, same_tree, vacant, with_snapshot,
    with_subvolume, without, FsState,
};
use crate::path::{
    lemma_moved_back, lemma_within_comparable, lemma_within_self, lemma_within_trans, moved, under,
    within, PathView,
};

verus! {

/// Whether `b` came from `a` by making subvolumes: what `a` held is kept, new
/// subvolumes lie where nothing was, and new files lie inside them.
pub open spec fn grown(a: FsState, b: FsState) -> bool {
    &&& b.default_subvol == a.default_subvol
    &&& forall|p: PathView| #[trigger]
        a.subvols.contains_key(p) ==> b.subvols.contains_key(p) && b.subvols[p] == a.subvols[p]
    &&& forall|p: PathView| #[trigger]
        a.files.contains_key(p) ==> b.files.contains_key(p) && b.files[p] == a.files[p]
    &&& forall|n: PathView| #[trigger]
        b.subvols.contains_key(n) && !a.subvols.contains_key(n) ==> vacant(a, n)
    &&& forall|p: PathView| #[trigger]
        b.files.contains_key(p) && !a.files.contains_key(p) ==> in_new(a, b, p)
}

/// Whether `p` lies in a subvolume that `b` has and `a` has not.
pub open spec fn in_new(a: FsState, b: FsState, p: PathView) -> bool {
    exists|n: PathView|
        b.subvols.contains_key(n) && !a.subvols.contains_key(n) && #[trigger] within(p, n)
}

/// Whether the subvolume at `dst` is a snapshot of the one at `src`: it has
/// it as its parent and holds the same files.
pub open spec fn is_copy(st: FsState, src: PathView, dst: PathView, readonly: bool) -> bool {
    &&& st.subvols.contains_key(src)
    &&& st.subvols.contains_key(dst)
    &&& st.subvols[dst].parent_uuid == Some(st.subvols[src].uuid)
    &&& st.subvols[dst].readonly == readonly
    &&& same_files(st, dst, st, src)
}

/// Whether the subvolume at `p` in `a` holds the files that the one at `q` in
/// `b` holds.
pub open spec fn same_files(a: FsState, p: PathView, b: FsState, q: PathView) -> bool {
    &&& forall|x: PathView| #[trigger]
        owned(a, p, x) ==> owned(b, q, moved(x, p, q)) && a.files[x] == b.files[moved(x, p, q)]
    &&& forall|x: PathView| #[trigger] owned(b, q, x) ==> owned(a, p, moved(x, q, p))
}

pub proof fn lemma_grown_refl(a: FsState)
    ensures
        grown(a, a),
{
}

pub proof fn lemma_grown_trans(a: FsState, b: FsState, c: FsState)
    requires
        grown(a, b),
        grown(b, c),
    ensures
        grown(a, c),
{
    assert forall|n: PathView| #[trigger]
        c.subvols.contains_key(n) && !a.subvols.contains_key(n) implies vacant(a, n) by {
        if b.subvols.contains_key(n) {
            assert(vacant(a, n));
        } else {
            assert(vacant(b, n));
        }
    }
    assert forall|p: PathView| #[trigger]
        c.files.contains_key(p) && !a.files.contains_key(p) implies in_new(a, c, p) by {
        if b.files.contains_key(p) {
            assert(in_new(a, b, p));
            let n = choose|n: PathView|
                b.subvols.contains_key(n) && !a.subvols.contains_key(n) && #[trigger] within(p, n);
            assert(c.subvols.contains_key(n) && !a.subvols.contains_key(n) && within(p, n));
        } else {
            assert(in_new(b, c, p));
            let n = choose|n: PathView|
                c.subvols.contains_key(n) && !b.subvols.contains_key(n) && #[trigger] within(p, n);
            assert(c.subvols.contains_key(n) && !a.subvols.contains_key(n) && within(p, n));
        }
    }
}

/// A subvolume keeps its own files while others are made.
pub proof fn lemma_grown_owned(a: FsState, b: FsState, r: PathView, q: PathView)
    requires
        grown(a, b),
        a.subvols.contains_key(r),
    ensures
        owned(b, r, q) == owned(a, r, q),
{
    if a.files.contains_key(q) {
        if owned(a, r, q) {
            assert forall|n: PathView| #[trigger]
                b.subvols.contains_key(n) && under(n, r) implies !within(q, n) by {
                if !a.subvols.contains_key(n) {
                    assert(vacant(a, n));
                }
            }
        }
        if owned(b, r, q) {
            assert forall|n: PathView| #[trigger]
                a.subvols.contains_key(n) && under(n, r) implies !within(q, n) by {
                assert(b.subvols.contains_key(n));
            }
        }
    } else if b.files.contains_key(q) {
        assert(in_new(a, b, q));
        let n = choose|n: PathView|
            b.subvols.contains_key(n) && !a.subvols.contains_key(n) && #[trigger] within(q, n);
        assert(vacant(a, n));
        if under(q, r) {
            lemma_within_self(q, r);
            lemma_within_comparable(q, n, r);
            lemma_within_self(n, r);
            assert(!within(r, n));
            assert(under(n, r));
        }
    }
}

/// A snapshot stays one while others are made.
pub proof fn lemma_grown_copy(a: FsState, b: FsState, src: PathView, dst: PathView, ro: bool)
    requires
        grown(a, b),
        is_copy(a, src, dst, ro),
    ensures
        is_copy(b, src, dst, ro),
{
    assert forall|x: PathView| #[trigger] owned(b, dst, x) implies owned(
        b,
        src,
        moved(x, dst, src),
    ) && b.files[x] == b.files[moved(x, dst, src)] by {
        lemma_grown_owned(a, b, dst, x);
        lemma_grown_owned(a, b, src, moved(x, dst, src));
        assert(owned(a, dst, x));
    }
    assert forall|x: PathView| #[trigger] owned(b, src, x) implies owned(
        b,
        dst,
        moved(x, src, dst),
    ) by {
        lemma_grown_owned(a, b, src, x);
        lemma_grown_owned(a, b, dst, moved(x, src, dst));
        assert(owned(a, src, x));
    }
}

/// Making a snapshot grows the state and gives a copy.
pub proof fn lemma_snapshot_grows(
    a: FsState,
    src: PathView,
    dst: PathView,
    uuid: u128,
    readonly: bool,
)
    requires
        can_snapshot(a, src, dst),
    ensures
        grown(a, with_snapshot(a, src, dst, uuid, readonly)),
        is_copy(with_snapshot(a, src, dst, uuid, readonly), src, dst, readonly),
        forall|p: PathView| #[trigger]
            with_snapshot(a, src, dst, uuid, readonly).subvols.contains_key(p)
                ==> a.subvols.contains_key(p) || p == dst,
        forall|p: PathView| #[trigger]
            with_snapshot(a, src, dst, uuid, readonly).files.contains_key(p)
                ==> a.files.contains_key(p) || under(p, dst),
{
    let b = with_snapshot(a, src, dst, uuid, readonly);
    lemma_within_self(dst, dst);
    assert forall|p: PathView| #[trigger]
        b.files.contains_key(p) && !a.files.contains_key(p) implies in_new(a, b, p) && under(
        p,
        dst,
    ) by {
        assert(within(p, dst));
        lemma_moved_back(p, dst, src);
        assert(b.subvols.contains_key(dst) && !a.subvols.contains_key(dst) && within(p, dst));
    }
    assert forall|p: PathView| #[trigger] a.files.contains_key(p) implies b.files.contains_key(p)
        && b.files[p] == a.files[p] by {
        assert(!within(p, dst));
    }
    assert(grown(a, b));
    assert forall|x: PathView| #[trigger] owned(b, dst, x) implies owned(
        b,
        src,
        moved(x, dst, src),
    ) && b.files[x] == b.files[moved(x, dst, src)] by {
        lemma_within_self(x, dst);
        let y = moved(x, dst, src);
        assert(owned(a, src, y));
        lemma_grown_owned(a, b, src, y);
        assert(a.files.contains_key(y));
    }
    assert forall|x: PathView| #[trigger] owned(b, src, x) implies owned(
        b,
        dst,
        moved(x, src, dst),
    ) by {
        lemma_grown_owned(a, b, src, x);
        lemma_within_self(x, src);
        lemma_moved_back(x, src, dst);
        let y = moved(x, src, dst);
        assert(b.files.contains_key(y));
        assert forall|n: PathView| #[trigger]
            b.subvols.contains_key(n) && under(n, dst) implies !within(y, n) by {
            assert(n != dst);
            lemma_within_self(n, dst);
            assert(a.subvols.contains_key(n));
        }
    }
}

/// A failed attempt at a snapshot grows the state at most by that snapshot.
pub proof fn lemma_failed_snapshot_grows(
    a: FsState,
    b: FsState,
    src: PathView,
    dst: PathView,
    readonly: bool,
)
    requires
        after_failed_snapshot(a, b, src, dst, readonly),
    ensures
        grown(a, b),
        forall|p: PathView| #[trigger]
            b.subvols.contains_key(p) ==> a.subvols.contains_key(p) || p == dst,
{
    if b != a {
        let uuid = choose|uuid: u128| b == #[trigger] with_snapshot(a, src, dst, uuid, readonly);
        lemma_snapshot_grows(a, src, dst, uuid, readonly);
    }
}

/// Making an empty subvolume grows the state.
pub proof fn lemma_subvolume_grows(a: FsState, path: PathView, uuid: u128)
    requires
        vacant(a, path),
    ensures
        grown(a, with_subvolume(a, path, uuid)),
{
    lemma_within_self(path, path);
}

/// Syncing files into a new subvolume keeps the state grown.
pub proof fn lemma_grown_sync(a: FsState, b: FsState, c: FsState, to: PathView)
    requires
        grown(a, b),
        b.subvols.contains_key(to),
        !a.subvols.contains_key(to),
        c.subvols == b.subvols,
        c.default_subvol == b.default_subvol,
        forall|p: PathView|
            !under(p, to) ==> (#[trigger] c.files.contains_key(p) == b.files.contains_key(p)),
        forall|p: PathView|
            !under(p, to) && b.files.contains_key(p) ==> #[trigger] c.files[p] == b.files[p],
    ensures
        grown(a, c),
{
    assert(vacant(a, to));
    assert forall|p: PathView| #[trigger] a.files.contains_key(p) implies c.files.contains_key(p)
        && c.files[p] == a.files[p] by {
        lemma_within_self(p, to);
        assert(!under(p, to));
        assert(b.files.contains_key(p));
    }
    assert forall|p: PathView| #[trigger]
        c.files.contains_key(p) && !a.files.contains_key(p) implies in_new(a, c, p) by {
        lemma_within_self(p, to);
        if under(p, to) {
            assert(c.subvols.contains_key(to) && !a.subvols.contains_key(to) && within(p, to));
        } else {
            assert(b.files.contains_key(p));
            assert(in_new(a, b, p));
            let n = choose|n: PathView|
                b.subvols.contains_key(n) && !a.subvols.contains_key(n) && #[trigger] within(p, n);
            assert(c.subvols.contains_key(n) && !a.subvols.contains_key(n) && within(p, n));
        }
    }
}

/// Deleting a new subvolume again keeps the state grown.
pub proof fn lemma_grown_without(a: FsState, b: FsState, tmp: PathView)
    requires
        grown(a, b),
        can_delete(b, tmp),
        !a.subvols.contains_key(tmp),
    ensures
        grown(a, without(b, tmp)),
{
    let c = without(b, tmp);
    assert(vacant(a, tmp));
    assert forall|p: PathView| #[trigger]
        c.files.contains_key(p) && !a.files.contains_key(p) implies in_new(a, c, p) by {
        assert(in_new(a, b, p));
        let n = choose|n: PathView|
            b.subvols.contains_key(n) && !a.subvols.contains_key(n) && #[trigger] within(p, n);
        lemma_within_self(n, tmp);
        if within(n, tmp) {
            assert(n == tmp);
        }
        assert(c.subvols.contains_key(n) && !a.subvols.contains_key(n) && within(p, n));
    }
}

/// Whether `p` lies at or inside one of the subvolumes `paths`.
#[verifier::opaque]
pub open spec fn gone(a: FsState, paths: Seq<PathView>, p: PathView) -> bool {
    exists|i: int|
        0 <= i < paths.len() && a.subvols.contains_key(#[trigger] paths[i]) && within(p, paths[i])
}

/// Whether `b` is `a` without the subvolumes `paths` and the files `files`.
/// Nothing else is lost and nothing is new; where not `exact`, some of what
/// was to go may still be there.
pub open spec fn pruned(
    a: FsState,
    b: FsState,
    paths: Seq<PathView>,
    files: Seq<PathView>,
    exact: bool,
) -> bool {
    &&& b.default_subvol == a.default_subvol
    &&& forall|p: PathView| #[trigger]
        b.subvols.contains_key(p) ==> a.subvols.contains_key(p) && (b.subvols[p] == a.subvols[p]
            || (!exact && gone(a, paths, p)))
    &&& forall|p: PathView| #[trigger]
        a.subvols.contains_key(p) && !gone(a, paths, p) ==> b.subvols.contains_key(p)
    &&& forall|p: PathView| #[trigger]
        b.files.contains_key(p) ==> a.files.contains_key(p) && b.files[p] == a.files[p]
    &&& forall|p: PathView| #[trigger]
        a.files.contains_key(p) && !gone(a, paths, p) && !files.contains(p)
            ==> b.files.contains_key(p)
    &&& exact ==> forall|p: PathView| #[trigger]
        gone(a, paths, p) ==> !b.subvols.contains_key(p) && !b.files.contains_key(p)
    &&& exact ==> forall|p: PathView| files.contains(p) ==> !(#[trigger] b.files.contains_key(p))
}

pub proof fn lemma_pruned_refl(a: FsState)
    ensures
        pruned(a, a, Seq::empty(), Seq::empty(), true),
{
    reveal(gone);
}

pub proof fn lemma_gone_left(a: FsState, p1: Seq<PathView>, p2: Seq<PathView>, p: PathView)
    requires
        gone(a, p1, p),
    ensures
        gone(a, p1 + p2, p),
{
    reveal(gone);
    let i = choose|i: int|
        0 <= i < p1.len() && a.subvols.contains_key(#[trigger] p1[i]) && within(p, p1[i]);
    assert((p1 + p2)[i] == p1[i]);
}

proof fn lemma_gone_right(
    a: FsState,
    b: FsState,
    p1: Seq<PathView>,
    p2: Seq<PathView>,
    p: PathView,
)
    requires
        gone(b, p2, p),
        forall|q: PathView| #[trigger] b.subvols.contains_key(q) ==> a.subvols.contains_key(q),
    ensures
        gone(a, p1 + p2, p),
{
    reveal(gone);
    let i = choose|i: int|
        0 <= i < p2.len() && b.subvols.contains_key(#[trigger] p2[i]) && within(p, p2[i]);
    assert((p1 + p2)[p1.len() + i] == p2[i]);
}

proof fn lemma_gone_split(
    a: FsState,
    b: FsState,
    p1: Seq<PathView>,
    p2: Seq<PathView>,
    p: PathView,
)
    requires
        gone(a, p1 + p2, p),
        forall|q: PathView| #[trigger]
            a.subvols.contains_key(q) && !gone(a, p1, q) ==> b.subvols.contains_key(q),
    ensures
        gone(a, p1, p) || gone(b, p2, p),
{
    reveal(gone);
    let ps = p1 + p2;
    let i = choose|i: int|
        0 <= i < ps.len() && a.subvols.contains_key(#[trigger] ps[i]) && within(p, ps[i]);
    if i < p1.len() {
        assert(p1[i] == ps[i]);
    } else {
        let k = i - p1.len();
        assert(p2[k] == ps[i]);
        if !b.subvols.contains_key(ps[i]) {
            assert(gone(a, p1, ps[i]));
            let j = choose|j: int|
                0 <= j < p1.len() && a.subvols.contains_key(#[trigger] p1[j]) && within(
                    ps[i],
                    p1[j],
                );
            lemma_within_trans(p, ps[i], p1[j]);
        }
    }
}

/// Removing in two steps is removing both lots.
pub proof fn lemma_pruned_trans(
    a: FsState,
    b: FsState,
    c: FsState,
    p1: Seq<PathView>,
    f1: Seq<PathView>,
    p2: Seq<PathView>,
    f2: Seq<PathView>,
    exact: bool,
)
    requires
        pruned(a, b, p1, f1, exact),
        pruned(b, c, p2, f2, exact),
    ensures
        pruned(a, c, p1 + p2, f1 + f2, exact),
{
    let ps = p1 + p2;
    let fs = f1 + f2;
    assert forall|p: PathView| #[trigger]
        a.subvols.contains_key(p) && !gone(a, ps, p) implies c.subvols.contains_key(p) by {
        if gone(a, p1, p) {
            lemma_gone_left(a, p1, p2, p);
        }
        if gone(b, p2, p) {
            lemma_gone_right(a, b, p1, p2, p);
        }
        assert(b.subvols.contains_key(p));
    }
    assert forall|p: PathView| #[trigger] c.subvols.contains_key(p) implies a.subvols.contains_key(
        p,
    ) && (c.subvols[p] == a.subvols[p] || (!exact && gone(a, ps, p))) by {
        assert(b.subvols.contains_key(p));
        if gone(a, p1, p) {
            lemma_gone_left(a, p1, p2, p);
        }
        if gone(b, p2, p) {
            lemma_gone_right(a, b, p1, p2, p);
        }
    }
    assert forall|p: PathView| #[trigger] c.files.contains_key(p) implies a.files.contains_key(p)
        && c.files[p] == a.files[p] by {
        assert(b.files.contains_key(p));
    }
    assert forall|p: PathView| #[trigger]
        a.files.contains_key(p) && !gone(a, ps, p) && !fs.contains(
            p,
        ) implies c.files.contains_key(p) by {
        if gone(a, p1, p) {
            lemma_gone_left(a, p1, p2, p);
        }
        if f1.contains(p) {
            let i = choose|i: int| 0 <= i < f1.len() && f1[i] == p;
            assert(fs[i] == p);
        }
        if f2.contains(p) {
            let i = choose|i: int| 0 <= i < f2.len() && f2[i] == p;
            assert(fs[f1.len() + i] == p);
        }
        assert(b.files.contains_key(p));
        if gone(b, p2, p) {
            lemma_gone_right(a, b, p1, p2, p);
        }
    }
    if exact {
        assert forall|p: PathView| #[trigger] gone(a, ps, p) implies !c.subvols.contains_key(p)
            && !c.files.contains_key(p) by {
            lemma_gone_split(a, b, p1, p2, p);
            if gone(a, p1, p) {
                assert(!b.subvols.contains_key(p) && !b.files.contains_key(p));
            }
        }
        assert forall|p: PathView| fs.contains(p) implies !(#[trigger] c.files.contains_key(p)) by {
            let i = choose|i: int| 0 <= i < fs.len() && fs[i] == p;
            if i < f1.len() {
                assert(f1[i] == p);
                assert(f1.contains(p));
                assert(!b.files.contains_key(p));
            } else {
                assert(f2[i - f1.len()] == p);
                assert(f2.contains(p));
            }
        }
    }
}

/// Removing exactly is removing.
pub proof fn lemma_pruned_weaken(
    a: FsState,
    b: FsState,
    paths: Seq<PathView>,
    files: Seq<PathView>,
)
    requires
        pruned(a, b, paths, files, true),
    ensures
        pruned(a, b, paths, files, false),
{
}

/// Removing the whole tree at a subvolume.
pub proof fn lemma_pruned_without(a: FsState, path: PathView)
    requires
        a.subvols.contains_key(path),
    ensures
        pruned(a, without(a, path), seq![path], Seq::empty(), true),
{
    reveal(gone);
    let ps = seq![path];
    assert forall|p: PathView| gone(a, ps, p) == #[trigger] within(p, path) by {
        if within(p, path) {
            assert(a.subvols.contains_key(ps[0]) && within(p, ps[0]));
        }
    }
}

/// A path that is no subvolume is not there to remove.
pub proof fn lemma_pruned_absent(a: FsState, path: PathView)
    requires
        !a.subvols.contains_key(path),
    ensures
        pruned(a, a, seq![path], Seq::empty(), true),
{
    reveal(gone);
}

/// Leaving a path alone.
pub proof fn lemma_pruned_kept(a: FsState, path: PathView)
    ensures
        pruned(a, a, seq![path], Seq::empty(), false),
{
}

/// What may still be removed may be more.
pub proof fn lemma_pruned_more(
    a: FsState,
    b: FsState,
    paths: Seq<PathView>,
    files: Seq<PathView>,
    more: Seq<PathView>,
    others: Seq<PathView>,
)
    requires
        pruned(a, b, paths, files, false),
    ensures
        pruned(a, b, paths + more, files + others, false),
{
    assert forall|p: PathView| #[trigger] b.subvols.contains_key(p) implies a.subvols.contains_key(
        p,
    ) && (b.subvols[p] == a.subvols[p] || gone(a, paths + more, p)) by {
        if gone(a, paths, p) {
            lemma_gone_left(a, paths, more, p);
        }
    }
    assert forall|p: PathView| #[trigger]
        a.subvols.contains_key(p) && !gone(a, paths + more, p) implies b.subvols.contains_key(
        p,
    ) by {
        if gone(a, paths, p) {
            lemma_gone_left(a, paths, more, p);
        }
    }
    assert forall|p: PathView| #[trigger]
        a.files.contains_key(p) && !gone(a, paths + more, p) && !(files + others).contains(
            p,
        ) implies b.files.contains_key(p) by {
        if gone(a, paths, p) {
            lemma_gone_left(a, paths, more, p);
        }
        if files.contains(p) {
            let i = choose|i: int| 0 <= i < files.len() && files[i] == p;
            assert((files + others)[i] == p);
        }
    }
}

/// A deletion that failed may have changed no more than the target's flag.
pub proof fn lemma_pruned_same_tree(a: FsState, b: FsState, path: PathView)
    requires
        same_tree(a, b, path),
    ensures
        pruned(a, b, seq![path], Seq::empty(), false),
{
    assert forall|p: PathView| #[trigger] b.subvols.contains_key(p) implies a.subvols.contains_key(
        p,
    ) && (b.subvols[p] == a.subvols[p] || gone(a, seq![path], p)) by {
        assert(b.subvols.dom().contains(p));
        assert(a.subvols.contains_key(p));
        if p == path {
            reveal(gone);
            lemma_within_self(p, p);
            let ps = seq![path];
            assert(a.subvols.contains_key(ps[0]) && within(p, ps[0]));
        }
    }
    assert forall|p: PathView| #[trigger] a.subvols.contains_key(p) implies b.subvols.contains_key(
        p,
    ) by {
        assert(a.subvols.dom().contains(p));
    }
}

/// Removing a file, or failing to, after subvolumes were removed.
pub proof fn lemma_pruned_file(
    a: FsState,
    b: FsState,
    c: FsState,
    paths: Seq<PathView>,
    file: PathView,
    exact: bool,
)
    requires
        pruned(a, b, paths, Seq::empty(), exact),
        c == b || c == (FsState { files: b.files.remove(file), ..b }),
        exact ==> c == (FsState { files: b.files.remove(file), ..b }),
    ensures
        pruned(a, c, paths, seq![file], exact),
{
    assert(seq![file].contains(file)) by {
        assert(seq![file][0] == file);
    }
    assert forall|p: PathView| #[trigger]
        a.files.contains_key(p) && !gone(a, paths, p) && !seq![file].contains(
            p,
        ) implies c.files.contains_key(p) by {
        assert(b.files.contains_key(p));
        assert(p != file);
    }
    assert forall|p: PathView| #[trigger] c.files.contains_key(p) implies a.files.contains_key(p)
        && c.files[p] == a.files[p] by {
        assert(b.files.contains_key(p));
    }
}

} // verus!
