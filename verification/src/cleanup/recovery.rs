//! Removing subvolume trees, and recovering what is stranded in DELETE markers.

use vstd::prelude::*;
use vstd::string::*;

use crate::backend::{
    can_rename, childless, is_listing, is_nested, is_nesting, outside, path_views, renamed,
    subvol_exists, with_rename, without, FileSystemBackend, FsState, SubvolumeInfo,
};
use crate::config::{strain_views, Config, ConfigView, StrainView, DELETE_STRAIN};
use crate::error::Result;
use crate::path::{
    file_name_of, lemma_moved_back, lemma_moved_within, lemma_within_comparable, lemma_within_self,
    lemma_within_trans, moved, path_join, under, within, FsPath, PathView,
};
use crate::restore::{lemma_nested_exists, none_lost};
use crate::snapshot::operations::apart;
use crate::text::{cat4, contains_text, lemma_views_push, strip_prefix, views};

verus! {

/// `list` with `x` appended unless it is there.
pub open spec fn with_base(list: Seq<Seq<char>>, x: Seq<char>) -> Seq<Seq<char>> {
    if list.contains(x) {
        list
    } else {
        list.push(x)
    }
}

/// `list` with the first `n` of `more` appended, each unless it is there.
pub open spec fn with_bases(list: Seq<Seq<char>>, more: Seq<Seq<char>>, n: nat) -> Seq<Seq<char>>
    decreases n,
{
    if n == 0 || n > more.len() {
        list
    } else {
        with_base(with_bases(list, more, (n - 1) as nat), more[n - 1])
    }
}

/// The subvolumes of the first `n` strains, each once.
pub open spec fn strain_bases(s: Seq<(Seq<char>, StrainView)>, n: nat) -> Seq<Seq<char>>
    decreases n,
{
    if n == 0 || n > s.len() {
        Seq::empty()
    } else {
        with_bases(
            strain_bases(s, (n - 1) as nat),
            s[n - 1].1.subvolumes,
            s[n - 1].1.subvolumes.len(),
        )
    }
}

/// The subvolumes whose DELETE markers are considered ours: those of the
/// strains, and the EFI staging subvolume where EFI is enabled.
pub open spec fn base_list(c: ConfigView) -> Seq<Seq<char>> {
    let list = strain_bases(c.strain, c.strain.len());
    if c.sys.efi_enabled {
        with_base(list, c.sys.staging_subvol)
    } else {
        list
    }
}

fn add_base(list: &mut Vec<String>, x: &String)
    ensures
        views(final(list)@) == with_base(views(old(list)@), x@),
{
    if !contains_text(list, x.as_str()) {
        let item: String = x.clone();
        proof {
            lemma_views_push(list@, item);
        }
        list.push(item);
    }
}

/// The subvolumes of all strains, each once.
pub fn collect_strain_subvols(config: &Config) -> (r: Vec<String>)
    ensures
        views(r@) == strain_bases(config@.strain, config@.strain.len()),
{
    let list = config.strain.entries();
    let ghost all = config@.strain;
    let mut out: Vec<String> = Vec::new();
    let mut i: usize = 0;
    proof {
        assert(views(out@) =~= Seq::empty());
    }
    while i < list.len()
        invariant
            i <= list.len(),
            strain_views(list@) == all,
            all == config@.strain,
            views(out@) == strain_bases(all, i as nat),
        decreases list.len() - i,
    {
        let subs = &list[i].config.subvolumes;
        let ghost before = views(out@);
        let mut j: usize = 0;
        while j < subs.len()
            invariant
                j <= subs.len(),
                views(out@) == with_bases(before, views(subs@), j as nat),
            decreases subs.len() - j,
        {
            add_base(&mut out, &subs[j]);
            assert(views(subs@)[j as int] == subs@[j as int]@);
            j = j + 1;
        }
        proof {
            assert(all[i as int] == list@[i as int]@);
        }
        i = i + 1;
    }
    out
}

/// The subvolume names whose `<base>-DELETE-<ts>` markers are considered ours
/// to enumerate or purge.
pub fn collect_base_names(config: &Config) -> (r: Vec<String>)
    ensures
        views(r@) == base_list(config@),
{
    let mut out = collect_strain_subvols(config);
    if config.sys.efi.enabled {
        add_base(&mut out, &config.sys.efi.staging_subvol);
    }
    out
}

/// Whether `p` lies in one of the first `j` of the given subvolumes.
spec fn removed_in(children: Seq<PathView>, j: int, p: PathView) -> bool {
    exists|i: int| 0 <= i < j && within(p, #[trigger] children[i])
}

/// What is left when the first `j` of the given subvolumes are gone.
spec fn remaining(a: FsState, children: Seq<PathView>, j: int) -> FsState {
    FsState {
        subvols: Map::new(
            |p: PathView| a.subvols.contains_key(p) && !removed_in(children, j, p),
            |p: PathView| a.subvols[p],
        ),
        files: Map::new(
            |p: PathView| a.files.contains_key(p) && !removed_in(children, j, p),
            |p: PathView| a.files[p],
        ),
        default_subvol: a.default_subvol,
    }
}

/// Whether `b` is `a` with nothing lost or changed outside `path`, and nothing
/// new.
pub open spec fn trimmed(a: FsState, b: FsState, path: PathView) -> bool {
    &&& b.default_subvol == a.default_subvol
    &&& forall|p: PathView| #[trigger] b.subvols.contains_key(p) ==> a.subvols.contains_key(p)
    &&& forall|p: PathView| #[trigger] b.files.contains_key(p) ==> a.files.contains_key(p)
        && b.files[p] == a.files[p]
    &&& forall|p: PathView| #[trigger]
        a.subvols.contains_key(p) && !within(p, path) ==> b.subvols.contains_key(p)
            && b.subvols[p] == a.subvols[p]
    &&& forall|p: PathView| #[trigger]
        a.files.contains_key(p) && !within(p, path) ==> b.files.contains_key(p)
}

/// The subvolumes strictly inside `path`.
pub open spec fn under_set(a: FsState, path: PathView) -> Set<PathView> {
    a.subvols.dom().filter(|p: PathView| under(p, path))
}

proof fn lemma_remaining_step(a: FsState, children: Seq<PathView>, j: int)
    requires
        0 <= j < children.len(),
    ensures
        without(remaining(a, children, j), children[j]) == remaining(a, children, j + 1),
{
    let r = without(remaining(a, children, j), children[j]);
    let r2 = remaining(a, children, j + 1);
    assert forall|p: PathView| #[trigger] removed_in(children, j + 1, p) == (removed_in(
        children,
        j,
        p,
    ) || within(p, children[j])) by {
        if removed_in(children, j, p) {
            let i = choose|i: int| 0 <= i < j && within(p, #[trigger] children[i]);
            assert(within(p, children[i]) && i < j + 1);
        }
        if within(p, children[j]) {
            assert(0 <= j < j + 1 && within(p, children[j]));
        }
    }
    assert(r.subvols =~= r2.subvols);
    assert(r.files =~= r2.files);
}

/// Delete a subvolume and any subvolumes nested inside it, from the inside
/// out.
pub fn delete_subvolume_recursive<B: FileSystemBackend>(backend: &mut B, path: &FsPath) -> (r:
    Result<()>)
    ensures
        final(backend).reliable() == old(backend).reliable(),
        r is Ok ==> old(backend).state().subvols.contains_key(path@) && final(backend).state()
            == without(old(backend).state(), path@),
        r is Err ==> trimmed(old(backend).state(), final(backend).state(), path@),
        old(backend).reliable() && old(backend).state().subvols.contains_key(path@) ==> r is Ok,
    decreases under_set(old(backend).state(), path@).len(),
{
    let ghost a = backend.state();
    let found = match backend.find_nested_subvolumes(path) {
        Ok(v) => v,
        Err(e) => {
            return Err(e);
        },
    };
    let ghost children = path_views(found@);
    let mut j: usize = 0;
    proof {
        assert(remaining(a, children, 0).subvols =~= a.subvols);
        assert(remaining(a, children, 0).files =~= a.files);
    }
    while j < found.len()
        invariant
            j <= found.len(),
            a == old(backend).state(),
            a.subvols.dom().finite(),
            backend.reliable() == old(backend).reliable(),
            children == path_views(found@),
            is_nesting(a, path@, children),
            backend.state() == remaining(a, children, j as int),
        decreases found.len() - j,
    {
        let child = &found[j];
        let ghost s = backend.state();
        proof {
            assert(children[j as int] == child@);
            assert(is_nested(a, path@, children[j as int]));
            lemma_within_self(child@, path@);
            let small = under_set(s, child@);
            let big = under_set(a, path@);
            a.subvols.dom().lemma_len_filter(|p: PathView| under(p, path@));
            assert(big.finite());
            assert(big.contains(child@));
            assert forall|p: PathView| small.contains(p) implies #[trigger] big.remove(
                child@,
            ).contains(p) by {
                lemma_within_self(p, child@);
                lemma_within_trans(p, child@, path@);
            }
            vstd::set_lib::lemma_len_subset(small, big.remove(child@));
            if backend.reliable() {
                assert(s.subvols.contains_key(child@)) by {
                    if removed_in(children, j as int, child@) {
                        let i = choose|i: int|
                            0 <= i < j && within(child@, #[trigger] children[i]);
                        assert(is_nested(a, path@, children[i]));
                        assert(children[i] == child@);
                    }
                }
            }
            lemma_remaining_step(a, children, j as int);
        }
        match delete_subvolume_recursive(backend, child) {
            Ok(_) => {},
            Err(e) => {
                proof {
                    let b = backend.state();
                    assert forall|p: PathView| #[trigger]
                        a.subvols.contains_key(p) && !within(
                            p,
                            path@,
                        ) implies b.subvols.contains_key(p) && b.subvols[p] == a.subvols[p] by {
                        lemma_outside_children(a, path@, children, j as int, p);
                        if within(p, child@) {
                            lemma_within_trans(p, child@, path@);
                        }
                        assert(s.subvols.contains_key(p));
                    }
                    assert forall|p: PathView| #[trigger]
                        a.files.contains_key(p) && !within(p, path@) implies b.files.contains_key(
                        p,
                    ) by {
                        lemma_outside_children(a, path@, children, j as int, p);
                        if within(p, child@) {
                            lemma_within_trans(p, child@, path@);
                        }
                        assert(s.files.contains_key(p));
                    }
                    assert forall|p: PathView| #[trigger]
                        b.files.contains_key(p) implies a.files.contains_key(p) && b.files[p]
                        == a.files[p] by {
                        assert(s.files.contains_key(p));
                    }
                    assert forall|p: PathView| #[trigger]
                        b.subvols.contains_key(p) implies a.subvols.contains_key(p) by {
                        assert(s.subvols.contains_key(p));
                    }
                }
                return Err(e);
            },
        }
        j = j + 1;
    }
    let ghost s = backend.state();
    proof {
        let n = children.len() as int;
        assert(childless(s, path@)) by {
            assert forall|q: PathView| #[trigger] s.subvols.contains_key(q) implies !under(
                q,
                path@,
            ) by {
                if under(q, path@) {
                    let c = lemma_nested_exists(a, path@, q);
                    assert(children.contains(c));
                    let i = choose|i: int| 0 <= i < children.len() && children[i] == c;
                    assert(removed_in(children, n, q));
                }
            }
        }
        assert(s.subvols.contains_key(path@) == a.subvols.contains_key(path@)) by {
            if removed_in(children, n, path@) {
                let i = choose|i: int| 0 <= i < n && within(path@, #[trigger] children[i]);
                assert(is_nested(a, path@, children[i]));
                lemma_within_self(children[i], path@);
            }
        }
    }
    let r = backend.delete_subvolume(path);
    proof {
        let b = backend.state();
        let n = children.len() as int;
        assert forall|p: PathView| !within(p, path@) implies !#[trigger] removed_in(
            children,
            n,
            p,
        ) by {
            lemma_outside_children(a, path@, children, n, p);
        }
        if r is Ok {
            assert(b.subvols =~= outside(a.subvols, path@)) by {
                assert forall|p: PathView| #[trigger] b.subvols.contains_key(p)
                    == outside(a.subvols, path@).contains_key(p) by {
                    lemma_within_self(p, path@);
                }
            }
            assert(b.files =~= outside(a.files, path@));
        } else {
            assert forall|p: PathView| #[trigger]
                b.subvols.contains_key(p) implies a.subvols.contains_key(p) by {
                assert(b.subvols.dom().contains(p));
                assert(s.subvols.contains_key(p));
            }
            assert forall|p: PathView| #[trigger]
                a.subvols.contains_key(p) && !within(p, path@) implies b.subvols.contains_key(p)
                && b.subvols[p] == a.subvols[p] by {
                assert(!removed_in(children, n, p));
                assert(s.subvols.contains_key(p));
                assert(s.subvols.dom().contains(p));
                lemma_within_self(p, path@);
                assert(p != path@);
            }
            assert forall|p: PathView| #[trigger]
                b.files.contains_key(p) implies a.files.contains_key(p) && b.files[p]
                == a.files[p] by {
                assert(s.files.contains_key(p));
            }
            assert forall|p: PathView| #[trigger]
                a.files.contains_key(p) && !within(p, path@) implies b.files.contains_key(p) by {
                assert(!removed_in(children, n, p));
                assert(s.files.contains_key(p));
            }
        }
    }
    r
}

proof fn lemma_outside_children(
    a: FsState,
    path: PathView,
    children: Seq<PathView>,
    j: int,
    p: PathView,
)
    requires
        is_nesting(a, path, children),
        0 <= j <= children.len(),
        !within(p, path),
    ensures
        !removed_in(children, j, p),
{
    if removed_in(children, j, p) {
        let i = choose|i: int| 0 <= i < j && within(p, #[trigger] children[i]);
        assert(is_nested(a, path, children[i]));
        lemma_within_self(children[i], path);
        lemma_within_trans(p, children[i], path);
    }
}

/// What follows `<base>-DELETE-` in the name of a DELETE marker.
pub open spec fn after_marker(base: Seq<char>, name: Seq<char>) -> Option<Seq<char>> {
    crate::text::after_prefix(name, base + "-"@ + DELETE_STRAIN@ + "-"@)
}

/// The first of the bases that `name` is a DELETE marker of, and the marker's
/// suffix.
pub open spec fn marker_of(bases: Seq<Seq<char>>, name: Seq<char>) -> Option<
    (Seq<char>, Seq<char>),
>
    decreases bases.len(),
{
    if bases.len() == 0 {
        None
    } else {
        match after_marker(bases[0], name) {
            Some(rest) => Some((bases[0], rest)),
            None => marker_of(bases.skip(1), name),
        }
    }
}

/// The base that `name` is a DELETE marker of, and the marker's suffix.
pub(crate) fn find_base<'a>(bases: &Vec<String>, name: &'a str) -> (r: Option<(usize, &'a str)>)
    ensures
        match r {
            Some((i, rest)) => i < bases.len() && marker_of(views(bases@), name@) == Some(
                (bases@[i as int]@, rest@),
            ),
            None => marker_of(views(bases@), name@) is None,
        },
{
    let ghost all = views(bases@);
    let mut i: usize = 0;
    proof {
        assert(all.skip(0) =~= all);
    }
    while i < bases.len()
        invariant
            i <= bases.len(),
            all == views(bases@),
            marker_of(all, name@) == marker_of(all.skip(i as int), name@),
        decreases bases.len() - i,
    {
        proof {
            assert(all.skip(i as int)[0] == bases@[i as int]@);
            assert(all.skip(i as int).skip(1) =~= all.skip(i + 1));
        }
        let prefix = cat4(bases[i].as_str(), "-", DELETE_STRAIN, "-");
        match strip_prefix(name, prefix.as_str()) {
            Some(rest) => {
                return Some((i, rest));
            },
            None => {},
        }
        i = i + 1;
    }
    None
}

/// Whether no subvolume lies at `p` or inside it.
pub open spec fn free(s: FsState, p: PathView) -> bool {
    forall|q: PathView| #[trigger] s.subvols.contains_key(q) ==> !within(q, p)
}

/// Whether `p` lies in one of the subvolumes that were moved.
pub open spec fn in_moved(nested: Seq<PathView>, flags: Seq<bool>, p: PathView) -> bool {
    exists|j: int|
        0 <= j < flags.len() && j < nested.len() && flags[j] && within(p, #[trigger] nested[j])
}

/// The entries after the flagged ones of the nested subvolumes were moved from
/// inside `t` to the same place inside `l`.
pub open spec fn reattached_map<V>(
    m: Map<PathView, V>,
    t: PathView,
    l: PathView,
    nested: Seq<PathView>,
    flags: Seq<bool>,
) -> Map<PathView, V> {
    Map::new(
        |p: PathView|
            if within(p, l) && in_moved(nested, flags, moved(p, l, t)) {
                m.contains_key(moved(p, l, t))
            } else {
                m.contains_key(p) && !in_moved(nested, flags, p)
            },
        |p: PathView|
            if within(p, l) && in_moved(nested, flags, moved(p, l, t)) {
                m[moved(p, l, t)]
            } else {
                m[p]
            },
    )
}

/// The state after the flagged ones of the nested subvolumes were moved from
/// inside `t` to the same place inside `l`.
pub open spec fn reattached(
    s: FsState,
    t: PathView,
    l: PathView,
    nested: Seq<PathView>,
    flags: Seq<bool>,
) -> FsState {
    FsState {
        subvols: reattached_map(s.subvols, t, l, nested, flags),
        files: reattached_map(s.files, t, l, nested, flags),
        default_subvol: s.default_subvol,
    }
}

/// The number of flags that are set.
pub open spec fn count_set(flags: Seq<bool>) -> nat
    decreases flags.len(),
{
    if flags.len() == 0 {
        0
    } else {
        count_set(flags.drop_last()) + if flags.last() {
            1nat
        } else {
            0
        }
    }
}

proof fn lemma_in_moved_push(nested: Seq<PathView>, flags: Seq<bool>, f: bool, p: PathView)
    requires
        flags.len() < nested.len(),
    ensures
        in_moved(nested, flags.push(f), p) == (in_moved(nested, flags, p) || (f && within(
            p,
            nested[flags.len() as int],
        ))),
{
    let more = flags.push(f);
    let k = flags.len() as int;
    if in_moved(nested, flags, p) {
        let j = choose|j: int|
            0 <= j < flags.len() && j < nested.len() && flags[j] && within(p, #[trigger] nested[j]);
        assert(more[j] && within(p, nested[j]));
    }
    if f && within(p, nested[k]) {
        assert(more[k] && within(p, nested[k]));
    }
    if in_moved(nested, more, p) {
        let j = choose|j: int|
            0 <= j < more.len() && j < nested.len() && more[j] && within(p, #[trigger] nested[j]);
        if j < k {
            assert(flags[j] && within(p, nested[j]));
        }
    }
}

proof fn lemma_nesting_apart(s: FsState, t: PathView, nested: Seq<PathView>, j: int, k: int)
    requires
        is_nesting(s, t, nested),
        0 <= j < nested.len(),
        0 <= k < nested.len(),
        j != k,
    ensures
        !within(nested[j], nested[k]),
{
    assert(is_nested(s, t, nested[j]));
    assert(is_nested(s, t, nested[k]));
}

/// What holds of the next nested subvolume while others are being moved.
proof fn lemma_reattach_ready(
    s: FsState,
    t: PathView,
    l: PathView,
    nested: Seq<PathView>,
    flags: Seq<bool>,
)
    requires
        apart(t, l),
        is_nesting(s, t, nested),
        flags.len() < nested.len(),
    ensures
        ({
            let n = nested[flags.len() as int];
            let to = moved(n, t, l);
            let m = reattached(s, t, l, nested, flags);
            &&& within(n, t)
            &&& within(to, l)
            &&& m.subvols.contains_key(n)
            &&& m.subvols.contains_key(to) == s.subvols.contains_key(to)
            &&& can_rename(m, n, to) == free(s, to)
        }),
{
    let k = flags.len() as int;
    let n = nested[k];
    let to = moved(n, t, l);
    let m = reattached(s, t, l, nested, flags);
    assert(is_nested(s, t, n));
    lemma_within_self(n, t);
    lemma_moved_back(n, t, l);
    lemma_within_self(n, n);
    lemma_apart_paths(t, l, n);
    lemma_apart_paths(t, l, to);
    assert forall|p: PathView| within(p, n) implies !#[trigger] in_moved(nested, flags, p) by {
        if in_moved(nested, flags, p) {
            let j = choose|j: int|
                0 <= j < flags.len() && j < nested.len() && flags[j] && within(
                    p,
                    #[trigger] nested[j],
                );
            lemma_within_comparable(p, n, nested[j]);
            lemma_nesting_apart(s, t, nested, j, k);
            lemma_nesting_apart(s, t, nested, k, j);
        }
    }
    assert forall|p: PathView| within(p, l) implies !#[trigger] in_moved(nested, flags, p) by {
        if in_moved(nested, flags, p) {
            let j = choose|j: int|
                0 <= j < flags.len() && j < nested.len() && flags[j] && within(
                    p,
                    #[trigger] nested[j],
                );
            assert(is_nested(s, t, nested[j]));
            lemma_within_self(nested[j], t);
            lemma_within_trans(p, nested[j], t);
            lemma_apart_paths(t, l, p);
        }
    }
    assert(!in_moved(nested, flags, n));
    assert(m.subvols.contains_key(n)) by {
        assert(!within(n, l));
    }
    assert(moved(to, l, t) == n);
    assert(!within(to, n)) by {
        if within(to, n) {
            lemma_within_trans(to, n, t);
        }
    }
    assert forall|q: PathView| within(q, to) implies (#[trigger] m.subvols.contains_key(q)
        == s.subvols.contains_key(q)) by {
        lemma_within_trans(q, to, l);
        let y = moved(q, l, t);
        lemma_moved_back(q, l, t);
        lemma_moved_within(q, to, l, t);
        assert(within(y, n));
    }
    lemma_within_self(to, to);
    if free(s, to) {
        assert forall|q: PathView| #[trigger] m.subvols.contains_key(q) implies !within(q, to) by {
            if within(q, to) {
                assert(s.subvols.contains_key(q));
            }
        }
    } else {
        let q = choose|q: PathView| #[trigger] s.subvols.contains_key(q) && within(q, to);
        assert(m.subvols.contains_key(q));
    }
}

proof fn lemma_apart_paths(p: PathView, q: PathView, x: PathView)
    requires
        apart(p, q),
    ensures
        !(within(x, p) && within(x, q)),
{
    if within(x, p) && within(x, q) {
        lemma_within_comparable(x, p, q);
    }
}

proof fn lemma_reattach_skip(
    s: FsState,
    t: PathView,
    l: PathView,
    nested: Seq<PathView>,
    flags: Seq<bool>,
)
    requires
        flags.len() < nested.len(),
    ensures
        reattached(s, t, l, nested, flags.push(false)) == reattached(s, t, l, nested, flags),
{
    assert forall|p: PathView| #[trigger] in_moved(nested, flags.push(false), p) == in_moved(
        nested,
        flags,
        p,
    ) by {
        lemma_in_moved_push(nested, flags, false, p);
    }
    let a = reattached(s, t, l, nested, flags.push(false));
    let b = reattached(s, t, l, nested, flags);
    assert(a.subvols =~= b.subvols);
    assert(a.files =~= b.files);
}

proof fn lemma_reattach_map<V>(
    s: FsState,
    m: Map<PathView, V>,
    t: PathView,
    l: PathView,
    nested: Seq<PathView>,
    flags: Seq<bool>,
    p: PathView,
)
    requires
        apart(t, l),
        is_nesting(s, t, nested),
        flags.len() < nested.len(),
    ensures
        ({
            let n = nested[flags.len() as int];
            let w = renamed(reattached_map(m, t, l, nested, flags), n, moved(n, t, l));
            let v = reattached_map(m, t, l, nested, flags.push(true));
            w.contains_key(p) == v.contains_key(p) && (w.contains_key(p) ==> w[p] == v[p])
        }),
{
    let k = flags.len() as int;
    let n = nested[k];
    let to = moved(n, t, l);
    let base = reattached_map(m, t, l, nested, flags);
    assert(is_nested(s, t, n));
    lemma_within_self(n, t);
    lemma_moved_back(n, t, l);
    lemma_apart_paths(t, l, p);
    lemma_in_moved_push(nested, flags, true, p);
    let y = moved(p, l, t);
    lemma_in_moved_push(nested, flags, true, y);
    if in_moved(nested, flags.push(true), p) {
        let j = choose|j: int|
            0 <= j < flags.push(true).len() && j < nested.len() && flags.push(true)[j] && within(
                p,
                #[trigger] nested[j],
            );
        assert(is_nested(s, t, nested[j]));
        lemma_within_self(nested[j], t);
        lemma_within_trans(p, nested[j], t);
    }
    if within(p, to) {
        lemma_within_trans(p, to, l);
        lemma_moved_back(p, l, t);
        lemma_moved_within(p, to, l, t);
        assert(moved(to, l, t) == n);
        assert(within(y, n));
        // The place inside the marker that `p` comes from.
        assert(moved(p, to, n) == y) by {
            lemma_moved_inner(p, to, l, t);
        }
        lemma_apart_paths(t, l, y);
        if in_moved(nested, flags, y) {
            let j = choose|j: int|
                0 <= j < flags.len() && j < nested.len() && flags[j] && within(
                    y,
                    #[trigger] nested[j],
                );
            lemma_within_comparable(y, n, nested[j]);
            lemma_nesting_apart(s, t, nested, j, k);
            lemma_nesting_apart(s, t, nested, k, j);
        }
        lemma_within_trans(y, n, t);
    } else if within(p, l) {
        lemma_moved_back(p, l, t);
        lemma_moved_within(p, to, l, t);
        assert(moved(to, l, t) == n);
        assert(!within(y, n));
        if within(p, n) {
            lemma_within_trans(p, n, t);
        }
    }
}

proof fn lemma_moved_inner(p: PathView, q: PathView, l: PathView, t: PathView)
    requires
        within(p, q),
        within(q, l),
    ensures
        moved(p, q, moved(q, l, t)) == moved(p, l, t),
{
    let f = moved(q, l, t);
    lemma_within_trans(p, q, l);
    assert(p =~= q + p.skip(q.len() as int));
    assert(q =~= l + q.skip(l.len() as int));
    assert(p.skip(l.len() as int) =~= q.skip(l.len() as int) + p.skip(q.len() as int));
    assert(f + p.skip(q.len() as int) =~= t + p.skip(l.len() as int));
}

proof fn lemma_reattach_step(
    s: FsState,
    t: PathView,
    l: PathView,
    nested: Seq<PathView>,
    flags: Seq<bool>,
)
    requires
        apart(t, l),
        is_nesting(s, t, nested),
        flags.len() < nested.len(),
    ensures
        with_rename(
            reattached(s, t, l, nested, flags),
            nested[flags.len() as int],
            moved(nested[flags.len() as int], t, l),
        ) == reattached(s, t, l, nested, flags.push(true)),
{
    let n = nested[flags.len() as int];
    let w = with_rename(reattached(s, t, l, nested, flags), n, moved(n, t, l));
    let v = reattached(s, t, l, nested, flags.push(true));
    assert forall|p: PathView|
        #![trigger w.subvols.contains_key(p)]
        #![trigger v.subvols.contains_key(p)]
        #![trigger w.files.contains_key(p)]
        #![trigger v.files.contains_key(p)]
        w.subvols.contains_key(p) == v.subvols.contains_key(p) && (w.subvols.contains_key(p)
            ==> w.subvols[p] == v.subvols[p]) && w.files.contains_key(p) == v.files.contains_key(p)
            && (w.files.contains_key(p) ==> w.files[p] == v.files[p]) by {
        lemma_reattach_map(s, s.subvols, t, l, nested, flags, p);
        lemma_reattach_map(s, s.files, t, l, nested, flags, p);
    }
    assert(w.subvols =~= v.subvols);
    assert(w.files =~= v.files);
}

/// Whether the subvolume at `q`, nested in `t`, can go back into the live
/// subvolume `l`: the live one exists, and no subvolume is in the way.
pub open spec fn can_return(a: FsState, t: PathView, l: PathView, q: PathView) -> bool {
    a.subvols.contains_key(l) && free(a, moved(q, t, l))
}

/// Whether `b` is `a` after the flagged ones of the subvolumes nested in `t`
/// were moved into `l`. Only one that can return is moved.
pub open spec fn recovery_by(
    a: FsState,
    b: FsState,
    t: PathView,
    l: PathView,
    nested: Seq<PathView>,
    flags: Seq<bool>,
) -> bool {
    &&& is_nesting(a, t, nested) || nested.len() == 0
    &&& flags.len() == nested.len()
    &&& b == reattached(a, t, l, nested, flags)
    &&& forall|j: int|
        #![trigger nested[j]]
        #![trigger flags[j]]
        0 <= j < nested.len() ==> (flags[j] ==> can_return(a, t, l, nested[j]))
}

/// Whether `b` is `a` after recovery of the subvolumes stranded in the marker
/// `t` of the live subvolume `l`, of which `n` were moved back. Where `exact`,
/// each was moved that could return.
pub open spec fn recovery_step(
    a: FsState,
    b: FsState,
    t: PathView,
    l: PathView,
    n: nat,
    exact: bool,
) -> bool {
    exists|nested: Seq<PathView>, flags: Seq<bool>| #[trigger]
        recovery_by(a, b, t, l, nested, flags) && n == count_set(flags) && (exact ==> is_nesting(
            a,
            t,
            nested,
        ) && forall|j: int|
            #![trigger nested[j]]
            #![trigger flags[j]]
            0 <= j < nested.len() ==> flags[j] == can_return(a, t, l, nested[j]))
}

/// The state after the flagged ones of the subvolumes nested in `t` were
/// renamed into `l`, one after the other.
pub open spec fn in_turn(
    a: FsState,
    t: PathView,
    l: PathView,
    nested: Seq<PathView>,
    flags: Seq<bool>,
) -> FsState
    decreases flags.len(),
{
    if flags.len() == 0 {
        a
    } else {
        let b = in_turn(a, t, l, nested, flags.drop_last());
        let q = nested[flags.len() - 1];
        if flags.last() {
            with_rename(b, q, moved(q, t, l))
        } else {
            b
        }
    }
}

/// Whether each flagged rename was possible when its turn came, and the live
/// subvolume existed. Where `exact`, each such one is flagged.
pub open spec fn turns_possible(
    a: FsState,
    t: PathView,
    l: PathView,
    nested: Seq<PathView>,
    flags: Seq<bool>,
    exact: bool,
) -> bool
    decreases flags.len(),
{
    flags.len() > 0 ==> {
        let b = in_turn(a, t, l, nested, flags.drop_last());
        let q = nested[flags.len() - 1];
        let possible = a.subvols.contains_key(l) && can_rename(b, q, moved(q, t, l));
        &&& turns_possible(a, t, l, nested, flags.drop_last(), exact)
        &&& flags.last() ==> possible
        &&& exact ==> flags.last() == possible
    }
}

/// Whether `b` is `a` after recovery of the subvolumes stranded in the marker
/// `t` of the live subvolume `l`, wherever the two lie: `n` of them were renamed
/// in turn.
pub open spec fn recovery_in_turn(
    a: FsState,
    b: FsState,
    t: PathView,
    l: PathView,
    n: nat,
    exact: bool,
) -> bool {
    exists|nested: Seq<PathView>, flags: Seq<bool>|
        (is_nesting(a, t, nested) || nested.len() == 0) && (exact ==> is_nesting(a, t, nested))
            && flags.len() == nested.len() && #[trigger] turns_possible(
            a,
            t,
            l,
            nested,
            flags,
            exact,
        ) && b == in_turn(a, t, l, nested, flags) && n == count_set(flags)
}

proof fn lemma_in_turn_keeps(
    a: FsState,
    t: PathView,
    l: PathView,
    nested: Seq<PathView>,
    flags: Seq<bool>,
    exact: bool,
    p: PathView,
) -> (q: PathView)
    requires
        turns_possible(a, t, l, nested, flags, exact),
        a.subvols.contains_key(p),
    ensures
        in_turn(a, t, l, nested, flags).subvols.contains_key(q),
        in_turn(a, t, l, nested, flags).subvols[q] == a.subvols[p],
    decreases flags.len(),
{
    if flags.len() == 0 {
        p
    } else {
        let first = flags.drop_last();
        let q = lemma_in_turn_keeps(a, t, l, nested, first, exact, p);
        let from = nested[flags.len() - 1];
        let to = moved(from, t, l);
        if flags.last() && within(q, from) {
            lemma_moved_back(q, from, to);
            moved(q, from, to)
        } else {
            q
        }
    }
}

/// Wherever marker and live subvolume lie, recovery loses no subvolume: each is
/// still there, at one place or another.
pub proof fn law_recovery_keeps_every_subvolume(
    a: FsState,
    b: FsState,
    t: PathView,
    l: PathView,
    n: nat,
    exact: bool,
    p: PathView,
)
    requires
        recovery_in_turn(a, b, t, l, n, exact),
        a.subvols.contains_key(p),
    ensures
        exists|q: PathView| #[trigger] b.subvols.contains_key(q) && b.subvols[q] == a.subvols[p],
{
    let (nested, flags) = choose|nested: Seq<PathView>, flags: Seq<bool>| #[trigger]
        turns_possible(a, t, l, nested, flags, exact) && b == in_turn(a, t, l, nested, flags);
    let q = lemma_in_turn_keeps(a, t, l, nested, flags, exact, p);
    assert(b.subvols.contains_key(q) && b.subvols[q] == a.subvols[p]);
}

proof fn lemma_no_turns(a: FsState, t: PathView, l: PathView, nested: Seq<PathView>, n: nat)
    ensures
        in_turn(a, t, l, nested, Seq::new(n, |i: int| false)) == a,
        turns_possible(a, t, l, nested, Seq::new(n, |i: int| false), false),
        !a.subvols.contains_key(l) ==> turns_possible(
            a,
            t,
            l,
            nested,
            Seq::new(n, |i: int| false),
            true,
        ),
        count_set(Seq::new(n, |i: int| false)) == 0,
    decreases n,
{
    if n > 0 {
        lemma_no_turns(a, t, l, nested, (n - 1) as nat);
        assert(Seq::new(n, |i: int| false).drop_last() =~= Seq::new(
            (n - 1) as nat,
            |i: int| false,
        ));
    }
}

proof fn lemma_nothing_moved(
    a: FsState,
    t: PathView,
    l: PathView,
    nested: Seq<PathView>,
    flags: Seq<bool>,
)
    requires
        forall|j: int| 0 <= j < flags.len() ==> !#[trigger] flags[j],
    ensures
        reattached(a, t, l, nested, flags) == a,
        count_set(flags) == 0,
    decreases flags.len(),
{
    let b = reattached(a, t, l, nested, flags);
    assert forall|p: PathView| !#[trigger] in_moved(nested, flags, p) by {}
    assert(b.subvols =~= a.subvols);
    assert(b.files =~= a.files);
    if flags.len() > 0 {
        assert(!flags[flags.len() - 1]);
        let first = flags.drop_last();
        assert forall|j: int| 0 <= j < first.len() implies !#[trigger] first[j] by {
            assert(first[j] == flags[j]);
        }
        lemma_nothing_moved(a, t, l, nested, first);
    }
}

/// Moves the subvolumes stranded in the marker `t` back into the live
/// subvolume `l`, as far as it goes, and returns how many were moved.
fn recover_entry<B: FileSystemBackend>(backend: &mut B, t: &FsPath, l: &FsPath) -> (r: usize)
    ensures
        final(backend).reliable() == old(backend).reliable(),
        apart(t@, l@) ==> recovery_step(
            old(backend).state(),
            final(backend).state(),
            t@,
            l@,
            r as nat,
            old(backend).reliable(),
        ),
        recovery_in_turn(
            old(backend).state(),
            final(backend).state(),
            t@,
            l@,
            r as nat,
            old(backend).reliable(),
        ),
{
    let ghost a = backend.state();
    let ghost exact = backend.reliable();
    let found = match backend.find_nested_subvolumes(t) {
        Ok(v) => v,
        Err(_) => {
            proof {
                lemma_nothing_moved(a, t@, l@, Seq::empty(), Seq::empty());
                assert(recovery_by(a, a, t@, l@, Seq::empty(), Seq::empty()));
                assert(turns_possible(a, t@, l@, Seq::empty(), Seq::empty(), exact));
            }
            return 0;
        },
    };
    let ghost nested = path_views(found@);
    if found.len() == 0 || !subvol_exists(backend, l) {
        proof {
            let flags = Seq::new(nested.len(), |i: int| false);
            lemma_nothing_moved(a, t@, l@, nested, flags);
            assert(recovery_by(a, a, t@, l@, nested, flags));
            lemma_no_turns(a, t@, l@, nested, nested.len());
            assert(turns_possible(a, t@, l@, nested, flags, exact));
        }
        return 0;
    }
    let ghost mut flags: Seq<bool> = Seq::empty();
    let mut count: usize = 0;
    let mut i: usize = 0;
    proof {
        lemma_nothing_moved(a, t@, l@, nested, flags);
    }
    while i < found.len()
        invariant
            i <= found.len(),
            a == old(backend).state(),
            exact == old(backend).reliable(),
            backend.reliable() == exact,
            nested == path_views(found@),
            is_nesting(a, t@, nested),
            a.subvols.contains_key(l@),
            flags.len() == i,
            count == count_set(flags),
            count <= i,
            apart(t@, l@) ==> backend.state() == reattached(a, t@, l@, nested, flags),
            backend.state() == in_turn(a, t@, l@, nested, flags),
            turns_possible(a, t@, l@, nested, flags, exact),
            apart(t@, l@) ==> forall|j: int|
                0 <= j < i && flags[j] ==> free(a, moved(#[trigger] nested[j], t@, l@)),
            apart(t@, l@) && exact ==> forall|j: int|
                0 <= j < i ==> flags[j] == free(a, moved(#[trigger] nested[j], t@, l@)),
        decreases found.len() - i,
    {
        let n = &found[i];
        proof {
            assert(nested[i as int] == n@);
            assert(is_nested(a, t@, nested[i as int]));
            lemma_within_self(n@, t@);
            if apart(t@, l@) {
                lemma_reattach_ready(a, t@, l@, nested, flags);
                lemma_reattach_skip(a, t@, l@, nested, flags);
                lemma_reattach_step(a, t@, l@, nested, flags);
            }
            assert(flags.push(true).drop_last() =~= flags);
            assert(flags.push(false).drop_last() =~= flags);
        }
        let to = n.rebase(t, l);
        let mut done: bool = false;
        if !subvol_exists(backend, &to) {
            let parent_ok: bool = match to.parent() {
                Some(parent) => {
                    proof {
                        lemma_within_self(parent@, parent@);
                    }
                    backend.create_dir_all(&parent).is_ok()
                },
                None => true,
            };
            if parent_ok {
                done = backend.rename_subvolume(n, &to).is_ok();
            }
        } else {
            proof {
                lemma_within_self(to@, to@);
                assert(!can_rename(backend.state(), n@, to@));
                if apart(t@, l@) {
                    assert(a.subvols.contains_key(to@));
                    assert(!free(a, to@));
                }
            }
        }
        if done {
            count = count + 1;
        }
        proof {
            flags = flags.push(done);
        }
        i = i + 1;
    }
    proof {
        if apart(t@, l@) {
            assert(recovery_by(a, backend.state(), t@, l@, nested, flags));
        }
    }
    count
}

/// Recovery never loses a subvolume: each is where it was, or at the same
/// place in the live subvolume.
pub proof fn law_recovery_loses_nothing(
    a: FsState,
    b: FsState,
    t: PathView,
    l: PathView,
    nested: Seq<PathView>,
    flags: Seq<bool>,
)
    requires
        apart(t, l),
        recovery_by(a, b, t, l, nested, flags),
    ensures
        none_lost(a, b, t, l),
{
    assert forall|p: PathView| #[trigger] a.subvols.contains_key(p) implies (
    b.subvols.contains_key(p) && b.subvols[p] == a.subvols[p]) || (within(p, t)
        && b.subvols.contains_key(moved(p, t, l)) && b.subvols[moved(p, t, l)]
        == a.subvols[p]) by {
        if in_moved(nested, flags, p) {
            let j = choose|j: int|
                0 <= j < flags.len() && j < nested.len() && flags[j] && within(
                    p,
                    #[trigger] nested[j],
                );
            assert(is_nested(a, t, nested[j]));
            lemma_within_self(nested[j], t);
            lemma_within_trans(p, nested[j], t);
            lemma_moved_back(p, t, l);
        } else if within(p, l) && in_moved(nested, flags, moved(p, l, t)) {
            let y = moved(p, l, t);
            let j = choose|j: int|
                0 <= j < flags.len() && j < nested.len() && flags[j] && within(
                    y,
                    #[trigger] nested[j],
                );
            assert(is_nested(a, t, nested[j]));
            lemma_within_self(nested[j], t);
            lemma_moved_back(p, l, t);
            lemma_moved_back(nested[j], t, l);
            lemma_moved_within(y, nested[j], t, l);
            assert(free(a, moved(nested[j], t, l)));
        }
    }
}

/// One step of the recovery of all markers: the entry `v` of the listing is a
/// marker of a known subvolume and its stranded subvolumes are recovered, or
/// it is left alone.
pub open spec fn recovers(
    a: FsState,
    b: FsState,
    c: ConfigView,
    toplevel: PathView,
    path: PathView,
    n: nat,
    exact: bool,
) -> bool {
    match marker_at(c, path) {
        Some((base, _)) => {
            let l = path_join(toplevel, base);
            &&& apart(path, l) ==> recovery_step(a, b, path, l, n, exact)
            &&& recovery_in_turn(a, b, path, l, n, exact)
        },
        None => b == a && n == 0,
    }
}

/// The base and suffix of the DELETE marker at `path`, if it is one.
pub open spec fn marker_at(c: ConfigView, path: PathView) -> Option<(Seq<char>, Seq<char>)> {
    match file_name_of(path) {
        Some(name) => marker_of(base_list(c), name),
        None => None,
    }
}

/// The sum of some numbers.
pub open spec fn total(v: Seq<nat>) -> nat
    decreases v.len(),
{
    if v.len() == 0 {
        0
    } else {
        total(v.drop_last()) + v.last()
    }
}

/// Whether the states are those between the steps of a recovery of the listed
/// entries.
pub open spec fn recovery_run(
    states: Seq<FsState>,
    counts: Seq<nat>,
    c: ConfigView,
    toplevel: PathView,
    v: Seq<SubvolumeInfo>,
    n: int,
    exact: bool,
) -> bool {
    &&& states.len() == n + 1
    &&& counts.len() == n
    &&& forall|i: int|
        0 <= i < n ==> recovers(
            #[trigger] states[i],
            states[i + 1],
            c,
            toplevel,
            v[i].path@,
            counts[i],
            exact,
        )
}

/// Whether recovery of all markers turned `a` into `b`, moving `n` subvolumes
/// back.
pub open spec fn recovered(
    a: FsState,
    b: FsState,
    c: ConfigView,
    toplevel: PathView,
    n: nat,
    exact: bool,
) -> bool {
    exists|v: Seq<SubvolumeInfo>, states: Seq<FsState>, counts: Seq<nat>|
        is_listing(a, toplevel, v) && #[trigger] recovery_run(
            states,
            counts,
            c,
            toplevel,
            v,
            v.len() as int,
            exact,
        ) && states[0] == a && states[v.len() as int] == b && n == total(counts)
}

/// Try to rescue nested subvolumes that ended up stranded inside a DELETE
/// marker, typically because a restore was interrupted.
///
/// For each marker that holds nested subvolumes, these are moved back into the
/// corresponding live subvolume at the same relative paths. What cannot be
/// moved stays where it is. Returns how many were moved.
pub fn recover_orphaned_nested_subvols<B: FileSystemBackend>(
    config: &Config,
    backend: &mut B,
    toplevel: &FsPath,
) -> (r: Result<usize>)
    ensures
        final(backend).reliable() == old(backend).reliable(),
        r is Err ==> final(backend).state() == old(backend).state(),
        old(backend).reliable() ==> r is Ok,
        r is Ok ==> exists|n: nat| #[trigger]
            recovered(
                old(backend).state(),
                final(backend).state(),
                config@,
                toplevel@,
                n,
                old(backend).reliable(),
            ) && r->Ok_0 == if n <= usize::MAX {
                n as usize
            } else {
                usize::MAX
            },
{
    let bases = collect_base_names(config);
    let ghost a = backend.state();
    let ghost exact = backend.reliable();
    let all = match backend.list_subvolumes(toplevel) {
        Ok(v) => v,
        Err(e) => {
            return Err(e);
        },
    };
    let mut count: usize = 0;
    let mut i: usize = 0;
    let ghost mut states: Seq<FsState> = seq![a];
    let ghost mut counts: Seq<nat> = Seq::empty();
    while i < all.len()
        invariant
            i <= all.len(),
            a == old(backend).state(),
            exact == old(backend).reliable(),
            backend.reliable() == exact,
            views(bases@) == base_list(config@),
            recovery_run(states, counts, config@, toplevel@, all@, i as int, exact),
            states[0] == a,
            states[i as int] == backend.state(),
            count == if total(counts) <= usize::MAX {
                total(counts) as usize
            } else {
                usize::MAX
            },
        decreases all.len() - i,
    {
        let path = &all[i].path;
        let ghost before = backend.state();
        let mut n: usize = 0;
        match path.file_name() {
            Some(name) => {
                match find_base(&bases, name) {
                    Some((b, _)) => {
                        let live = toplevel.join(bases[b].as_str());
                        n = recover_entry(backend, path, &live);
                    },
                    None => {},
                }
            },
            None => {},
        }
        proof {
            let now = backend.state();
            let more = states.push(now);
            let nums = counts.push(n as nat);
            assert(recovers(before, now, config@, toplevel@, path@, n as nat, exact));
            assert forall|k: int| 0 <= k < i + 1 implies recovers(
                #[trigger] more[k],
                more[k + 1],
                config@,
                toplevel@,
                all@[k].path@,
                nums[k],
                exact,
            ) by {
                if k < i {
                    assert(more[k] == states[k] && more[k + 1] == states[k + 1]);
                    assert(nums[k] == counts[k]);
                }
            }
            assert(nums.drop_last() =~= counts);
            states = more;
            counts = nums;
        }
        if n <= usize::MAX - count {
            count = count + n;
        } else {
            count = usize::MAX;
        }
        i = i + 1;
    }
    proof {
        assert(recovered(a, backend.state(), config@, toplevel@, total(counts), exact));
    }
    Ok(count)
}

} // verus!
