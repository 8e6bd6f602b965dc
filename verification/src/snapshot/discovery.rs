//! Finding snapshots on disk.

use vstd::prelude::*;
use vstd::string::*;

use crate::assoc::{distinct_keys, lemma_lookup_distinct, lemma_lookup_index, lookup};
use crate::backend::{is_listing, subvol_exists, FileSystemBackend, FsState, SubvolumeInfo};
use crate::config::{strain_views, Config, ConfigView, StrainConfig, StrainView};
use crate::error::{ErrorView, Result, RevenantError};
use crate::metadata::{self, sidecar_at, sidecar_in};
use crate::path::{is_child, path_join, FsPath, PathView};
use crate::snapshot::id::{id_ok, name_text, trailing_id, SnapshotId};
use crate::snapshot::info::{
    infos, qualified, qualified_text, sidecar_path_for_snapshot, snap_dir_of, snapshot_dir,
    InfoView, SnapshotInfo,
};
use crate::text::{
    after_prefix, cat2, cat4, contains_text, join_texts, joined, lemma_text_less_irreflexive,
    lemma_text_less_total, lemma_text_less_transitive, lemma_views_push, precedes, same_text,
    strip_prefix, text_less, views,
};

verus! {

/// The parts that a snapshot of a strain consists of: its subvolumes, and the
/// EFI staging subvolume where EFI is synced.
pub open spec fn strain_parts(c: ConfigView, s: StrainView) -> Seq<Seq<char>> {
    if s.efi && c.sys.efi_enabled {
        s.subvolumes.push(c.sys.staging_subvol)
    } else {
        s.subvolumes
    }
}

/// Whether the snapshot directory holds a snapshot of `part`.
pub open spec fn part_present(
    st: FsState,
    dir: PathView,
    part: Seq<char>,
    strain: Seq<char>,
    id: Seq<char>,
) -> bool {
    st.subvols.contains_key(dir.push(name_text(part, strain, id)))
}

/// The parts of a strain's snapshot that are present, in the strain's order.
pub open spec fn parts_found(
    st: FsState,
    dir: PathView,
    parts: Seq<Seq<char>>,
    strain: Seq<char>,
    id: Seq<char>,
) -> Seq<Seq<char>>
    decreases parts.len(),
{
    if parts.len() == 0 {
        Seq::empty()
    } else {
        let rest = parts_found(st, dir, parts.drop_last(), strain, id);
        if part_present(st, dir, parts.last(), strain, id) {
            rest.push(parts.last())
        } else {
            rest
        }
    }
}

/// Whether there is a snapshot `id` of a configured strain: at least one of
/// its parts is present.
pub open spec fn is_snapshot(
    st: FsState,
    c: ConfigView,
    toplevel: PathView,
    strain: Seq<char>,
    id: Seq<char>,
) -> bool {
    &&& lookup(c.strain, strain) is Some
    &&& id_ok(id)
    &&& parts_found(
        st,
        snap_dir_of(c, toplevel),
        strain_parts(c, lookup(c.strain, strain)->0),
        strain,
        id,
    ).len() > 0
}

/// The snapshot `id` of a configured strain.
pub open spec fn snapshot_of(
    st: FsState,
    c: ConfigView,
    toplevel: PathView,
    strain: Seq<char>,
    id: Seq<char>,
) -> InfoView {
    let dir = snap_dir_of(c, toplevel);
    let s = lookup(c.strain, strain)->0;
    let found = parts_found(st, dir, strain_parts(c, s), strain, id);
    InfoView {
        id,
        strain,
        subvolumes: found,
        efi_synced: c.sys.efi_enabled && s.efi && found.contains(c.sys.staging_subvol),
        metadata: sidecar_in(st, sidecar_at(dir, strain, id)),
    }
}

/// The order of a listing of snapshots: by ID, then by strain.
pub open spec fn info_less(a: InfoView, b: InfoView) -> bool {
    text_less(a.id, b.id) || (a.id == b.id && text_less(a.strain, b.strain))
}

/// Whether `v` is in strictly ascending order.
pub open spec fn info_sorted(v: Seq<InfoView>) -> bool {
    forall|i: int, j: int|
        0 <= i < j < v.len() ==> info_less(#[trigger] v[i], #[trigger] v[j])
}

/// Whether `a` is the snapshot `b`, but for metadata that may be missing.
pub open spec fn same_info(a: InfoView, b: InfoView, exact: bool) -> bool {
    &&& a.id == b.id
    &&& a.strain == b.strain
    &&& a.subvolumes == b.subvolumes
    &&& a.efi_synced == b.efi_synced
    &&& (a.metadata == b.metadata || (!exact && a.metadata is None))
}

/// Whether `v` lists the snapshots on disk in order, each once.
pub open spec fn is_discovery(
    st: FsState,
    c: ConfigView,
    toplevel: PathView,
    v: Seq<InfoView>,
    exact: bool,
) -> bool {
    &&& info_sorted(v)
    &&& forall|i: int|
        0 <= i < v.len() ==> is_snapshot(st, c, toplevel, (#[trigger] v[i]).strain, v[i].id)
            && same_info(v[i], snapshot_of(st, c, toplevel, v[i].strain, v[i].id), exact)
    &&& forall|strain: Seq<char>, id: Seq<char>| #[trigger]
        is_snapshot(st, c, toplevel, strain, id) ==> exists|i: int|
            0 <= i < v.len() && (#[trigger] v[i]).strain == strain && v[i].id == id
}

/// Whether `v` is what discovery finds: nothing where the snapshot directory
/// does not exist.
pub open spec fn discovered(
    st: FsState,
    c: ConfigView,
    toplevel: PathView,
    v: Seq<InfoView>,
) -> bool {
    if st.subvols.contains_key(snap_dir_of(c, toplevel)) {
        is_discovery(st, c, toplevel, v, true)
    } else {
        v.len() == 0
    }
}

/// Whether `v` is what discovery may find. Where the backend is not reliable,
/// that is nothing, or every snapshot with its sidecar or without.
pub open spec fn may_discover(
    st: FsState,
    c: ConfigView,
    toplevel: PathView,
    v: Seq<InfoView>,
    exact: bool,
) -> bool {
    if exact {
        discovered(st, c, toplevel, v)
    } else {
        v.len() == 0 || is_discovery(st, c, toplevel, v, false)
    }
}

proof fn lemma_info_order(a: InfoView, b: InfoView, c: InfoView)
    ensures
        !info_less(a, a),
        info_less(a, b) && info_less(b, c) ==> info_less(a, c),
        info_less(a, b) || info_less(b, a) || (a.id == b.id && a.strain == b.strain),
{
    lemma_text_less_irreflexive(a.id);
    lemma_text_less_irreflexive(a.strain);
    lemma_text_less_total(a.id, b.id);
    lemma_text_less_total(a.strain, b.strain);
    if info_less(a, b) && info_less(b, c) {
        if text_less(a.id, b.id) && text_less(b.id, c.id) {
            lemma_text_less_transitive(a.id, b.id, c.id);
        }
        if text_less(a.strain, b.strain) && text_less(b.strain, c.strain) {
            lemma_text_less_transitive(a.strain, b.strain, c.strain);
        }
    }
}

/// Whether `names` are the names of the direct children of `dir`.
pub open spec fn is_child_names(st: FsState, dir: PathView, names: Seq<Seq<char>>) -> bool {
    forall|n: Seq<char>| #[trigger]
        names.contains(n) <==> (st.subvols.contains_key(dir.push(n)) && n != "/"@ && n != ".."@)
}

/// The names of the listed subvolumes.
pub(crate) fn child_names(v: &Vec<SubvolumeInfo>, st: Ghost<FsState>, dir: Ghost<PathView>) -> (r: Vec<
    String,
>)
    requires
        is_listing(st@, dir@, v@),
    ensures
        is_child_names(st@, dir@, views(r@)),
        views(r@).no_duplicates(),
{
    let mut out: Vec<String> = Vec::new();
    let mut i: usize = 0;
    while i < v.len()
        invariant
            i <= v.len(),
            is_listing(st@, dir@, v@),
            views(out@).no_duplicates(),
            forall|n: Seq<char>| #[trigger]
                views(out@).contains(n) <==> exists|j: int|
                    0 <= j < i && (#[trigger] v[j]).path@ == dir@.push(n) && n != "/"@ && n
                        != ".."@,
        decreases v.len() - i,
    {
        let ghost was = views(out@);
        match v[i].path.file_name() {
            Some(n) => {
                let name: String = n.to_owned();
                proof {
                    lemma_views_push(out@, name);
                    assert(v[i as int].path@ =~= dir@.push(name@));
                    assert(!was.contains(name@)) by {
                        if was.contains(name@) {
                            let j = choose|j: int|
                                0 <= j < i && (#[trigger] v[j]).path@ == dir@.push(name@) && name@
                                    != "/"@ && name@ != ".."@;
                            assert(v[j].path@ != v[i as int].path@);
                        }
                    }
                }
                out.push(name);
                proof {
                    assert forall|n: Seq<char>| #[trigger] views(out@).contains(n) <==> exists|
                        j: int,
                    |
                        0 <= j < i + 1 && (#[trigger] v[j]).path@ == dir@.push(n) && n != "/"@ && n
                            != ".."@ by {
                        assert(views(out@) == was.push(name@));
                        if views(out@).contains(n) {
                            let k = choose|k: int|
                                0 <= k < views(out@).len() && views(out@)[k] == n;
                            if k < was.len() {
                                assert(was[k] == n);
                                assert(was.contains(n));
                            } else {
                                assert(v[i as int].path@ == dir@.push(n));
                            }
                        }
                        if exists|j: int|
                            0 <= j < i + 1 && (#[trigger] v[j]).path@ == dir@.push(n) && n != "/"@
                                && n != ".."@ {
                            let j = choose|j: int|
                                0 <= j < i + 1 && (#[trigger] v[j]).path@ == dir@.push(n) && n
                                    != "/"@ && n != ".."@;
                            if j < i {
                                assert(was.contains(n));
                                let k = choose|k: int| 0 <= k < was.len() && was[k] == n;
                                assert(views(out@)[k] == n);
                            } else {
                                assert(dir@.push(n).last() == n);
                                assert(dir@.push(name@).last() == name@);
                                assert(views(out@)[views(out@).len() - 1] == n);
                            }
                        }
                    }
                }
            },
            None => {
                proof {
                    assert forall|n: Seq<char>| #[trigger] was.contains(n) <==> exists|j: int|
                        0 <= j < i + 1 && (#[trigger] v[j]).path@ == dir@.push(n) && n != "/"@ && n
                            != ".."@ by {
                        if v[i as int].path@ == dir@.push(n) {
                            assert(v[i as int].path@.last() == n);
                        }
                    }
                }
            },
        }
        i = i + 1;
    }
    proof {
        assert forall|n: Seq<char>| #[trigger] views(out@).contains(n) <==> (
        st@.subvols.contains_key(dir@.push(n)) && n != "/"@ && n != ".."@) by {
            let p = dir@.push(n);
            assert(p.take(dir@.len() as int) =~= dir@);
            assert(is_child(p, dir@));
        }
    }
    out
}

pub proof fn lemma_parts_found(
    st: FsState,
    dir: PathView,
    parts: Seq<Seq<char>>,
    strain: Seq<char>,
    id: Seq<char>,
    i: int,
)
    requires
        0 <= i < parts.len(),
        part_present(st, dir, parts[i], strain, id),
    ensures
        parts_found(st, dir, parts, strain, id).len() > 0,
    decreases parts.len(),
{
    if i < parts.len() - 1 {
        lemma_parts_found(st, dir, parts.drop_last(), strain, id, i);
    }
}

pub proof fn lemma_found_has(
    st: FsState,
    dir: PathView,
    parts: Seq<Seq<char>>,
    strain: Seq<char>,
    id: Seq<char>,
) -> (i: int)
    requires
        parts_found(st, dir, parts, strain, id).len() > 0,
    ensures
        0 <= i < parts.len(),
        part_present(st, dir, parts[i], strain, id),
    decreases parts.len(),
{
    if part_present(st, dir, parts.last(), strain, id) {
        parts.len() - 1
    } else {
        lemma_found_has(st, dir, parts.drop_last(), strain, id)
    }
}

proof fn lemma_name_entry(part: Seq<char>, strain: Seq<char>, id: Seq<char>)
    ensures
        name_text(part, strain, id).len() >= 2,
        name_text(part, strain, id) != "/"@,
        id.len() > 0 ==> name_text(part, strain, id) != ".."@,
{
    reveal_strlit("-");
    reveal_strlit("/");
    reveal_strlit("..");
    let s = name_text(part, strain, id);
    assert(s.len() == part.len() + strain.len() + id.len() + 2);
}

/// The parts of a strain's snapshot.
fn parts_of(config: &Config, s: &StrainConfig) -> (r: Vec<String>)
    ensures
        views(r@) == strain_parts(config@, s@),
{
    let mut parts = crate::text::clone_texts(&s.subvolumes);
    if s.efi && config.sys.efi.enabled {
        let staging: String = config.sys.efi.staging_subvol.clone();
        proof {
            lemma_views_push(parts@, staging);
        }
        parts.push(staging);
    }
    parts
}

/// Reads what is known of the snapshot `id` of a strain.
fn build_info<B: FileSystemBackend>(
    config: &Config,
    backend: &B,
    dir: &FsPath,
    names: &Vec<String>,
    strain: &str,
    s: &StrainConfig,
    id: SnapshotId,
    toplevel: Ghost<PathView>,
) -> (r: SnapshotInfo)
    requires
        dir@ == snap_dir_of(config@, toplevel@),
        is_child_names(backend.state(), dir@, views(names@)),
        lookup(config@.strain, strain@) == Some(s@),
        id@.len() > 0,
    ensures
        same_info(
            r@,
            snapshot_of(backend.state(), config@, toplevel@, strain@, id@),
            backend.reliable(),
        ),
{
    let parts = parts_of(config, s);
    let ghost st = backend.state();
    let mut found: Vec<String> = Vec::new();
    let mut i: usize = 0;
    proof {
        assert(views(found@) =~= Seq::empty());
        assert(views(parts@).take(0) =~= Seq::empty());
    }
    while i < parts.len()
        invariant
            i <= parts.len(),
            st == backend.state(),
            is_child_names(st, dir@, views(names@)),
            id@.len() > 0,
            views(found@) == parts_found(st, dir@, views(parts@).take(i as int), strain@, id@),
        decreases parts.len() - i,
    {
        let name = id.snapshot_name(parts[i].as_str(), strain);
        proof {
            lemma_name_entry(parts@[i as int]@, strain@, id@);
            assert(views(parts@).take(i + 1).drop_last() =~= views(parts@).take(i as int));
            assert(views(parts@).take(i + 1).last() == parts@[i as int]@);
        }
        if contains_text(names, name.as_str()) {
            let part: String = parts[i].clone();
            proof {
                lemma_views_push(found@, part);
            }
            found.push(part);
        }
        i = i + 1;
    }
    proof {
        assert(views(parts@).take(parts@.len() as int) =~= views(parts@));
    }
    let efi_synced: bool = config.sys.efi.enabled && s.efi && contains_text(
        &found,
        config.sys.efi.staging_subvol.as_str(),
    );
    let path = sidecar_path_for_snapshot(dir, strain, &id);
    let metadata = match metadata::read(backend, &path) {
        Ok(m) => m,
        Err(_) => None,
    };
    SnapshotInfo { id, strain: strain.to_owned(), subvolumes: found, efi_synced, metadata }
}

/// Whether the list holds the snapshot `id` of a strain.
fn has_snapshot(v: &Vec<SnapshotInfo>, strain: &str, id: &str) -> (r: bool)
    ensures
        r == exists|i: int|
            0 <= i < infos(v@).len() && (#[trigger] infos(v@)[i]).strain == strain@ && infos(
                v@,
            )[i].id == id@,
{
    let mut i: usize = 0;
    while i < v.len()
        invariant
            i <= v.len(),
            forall|j: int|
                0 <= j < i ==> !((#[trigger] infos(v@)[j]).strain == strain@ && infos(v@)[j].id
                    == id@),
        decreases v.len() - i,
    {
        if same_text(v[i].strain.as_str(), strain) && same_text(v[i].id.as_str(), id) {
            assert(infos(v@)[i as int].strain == strain@ && infos(v@)[i as int].id == id@);
            return true;
        }
        i = i + 1;
    }
    false
}

/// Inserts a snapshot into a sorted list that does not hold it.
fn insert_info(v: &mut Vec<SnapshotInfo>, item: SnapshotInfo)
    requires
        info_sorted(infos(old(v)@)),
        forall|i: int|
            0 <= i < infos(old(v)@).len() ==> !((#[trigger] infos(old(v)@)[i]).strain
                == item@.strain && infos(old(v)@)[i].id == item@.id),
    ensures
        exists|k: int|
            0 <= k <= infos(old(v)@).len() && infos(final(v)@) == #[trigger] infos(
                old(v)@,
            ).insert(k, item@),
        info_sorted(infos(final(v)@)),
{
    let mut k: usize = 0;
    while k < v.len() && (precedes(v[k].id.as_str(), item.id.as_str()) || (same_text(
        v[k].id.as_str(),
        item.id.as_str(),
    ) && precedes(v[k].strain.as_str(), item.strain.as_str())))
        invariant
            k <= v.len(),
            forall|j: int| 0 <= j < k ==> info_less(#[trigger] infos(v@)[j], item@),
        decreases v.len() - k,
    {
        assert(infos(v@)[k as int] == v@[k as int]@);
        k = k + 1;
    }
    let ghost before = infos(v@);
    v.insert(k, item);
    proof {
        let now = before.insert(k as int, item@);
        assert(infos(v@) =~= now);
        if k < before.len() {
            assert(before[k as int] == old(v)@[k as int]@);
            assert(!info_less(before[k as int], item@));
            lemma_info_order(before[k as int], item@, item@);
            assert(info_less(item@, before[k as int]));
        }
        assert forall|i: int, j: int| 0 <= i < j < now.len() implies info_less(
            #[trigger] now[i],
            #[trigger] now[j],
        ) by {
            if i < k && j > k {
                assert(info_less(before[i], before[j - 1]));
            } else if i == k {
                if j - 1 > k {
                    lemma_info_order(item@, before[k as int], before[j - 1]);
                }
            } else if i > k {
                assert(info_less(before[i - 1], before[j - 1]));
            }
        }
    }
}

/// Whether the names processed so far were all accounted for: every snapshot
/// of which some part carries one of the first names of the strain, or any
/// name of an earlier strain, is in the list.
spec fn covered(
    v: Seq<InfoView>,
    strain: Seq<char>,
    part: Seq<char>,
    name: Seq<char>,
) -> bool {
    forall|id: Seq<char>|
        name == #[trigger] name_text(part, strain, id) && id_ok(id) ==> exists|i: int|
            0 <= i < v.len() && (#[trigger] v[i]).strain == strain && v[i].id == id
}

proof fn lemma_covered_insert(
    v: Seq<InfoView>,
    k: int,
    item: InfoView,
    strain: Seq<char>,
    part: Seq<char>,
    name: Seq<char>,
)
    requires
        0 <= k <= v.len(),
        covered(v, strain, part, name),
    ensures
        covered(v.insert(k, item), strain, part, name),
{
    let w = v.insert(k, item);
    assert forall|id: Seq<char>|
        name == #[trigger] name_text(part, strain, id) && id_ok(id) implies exists|i: int|
        0 <= i < w.len() && (#[trigger] w[i]).strain == strain && w[i].id == id by {
        let i = choose|i: int|
            0 <= i < v.len() && (#[trigger] v[i]).strain == strain && v[i].id == id;
        if i < k {
            assert(w[i] == v[i]);
        } else {
            assert(w[i + 1] == v[i]);
        }
    }
}

/// Whether the list is in order and holds only snapshots on disk.
spec fn only_snapshots(
    st: FsState,
    c: ConfigView,
    toplevel: PathView,
    v: Seq<InfoView>,
    exact: bool,
) -> bool {
    &&& info_sorted(v)
    &&& forall|i: int|
        0 <= i < v.len() ==> is_snapshot(st, c, toplevel, (#[trigger] v[i]).strain, v[i].id)
            && same_info(v[i], snapshot_of(st, c, toplevel, v[i].strain, v[i].id), exact)
}

/// Adds the snapshot that an entry's name stands for as a snapshot of `part`,
/// if it does and the list does not hold it yet.
fn add_entry<B: FileSystemBackend>(
    config: &Config,
    backend: &B,
    dir: &FsPath,
    names: &Vec<String>,
    at: usize,
    strain: &str,
    s: &StrainConfig,
    part: &str,
    out: &mut Vec<SnapshotInfo>,
    toplevel: Ghost<PathView>,
)
    requires
        at < names.len(),
        dir@ == snap_dir_of(config@, toplevel@),
        is_child_names(backend.state(), dir@, views(names@)),
        lookup(config@.strain, strain@) == Some(s@),
        strain_parts(config@, s@).contains(part@),
        only_snapshots(
            backend.state(),
            config@,
            toplevel@,
            infos(old(out)@),
            backend.reliable(),
        ),
    ensures
        only_snapshots(
            backend.state(),
            config@,
            toplevel@,
            infos(final(out)@),
            backend.reliable(),
        ),
        infos(final(out)@) == infos(old(out)@) || exists|k: int, x: InfoView|
            0 <= k <= infos(old(out)@).len() && infos(final(out)@) == #[trigger] infos(
                old(out)@,
            ).insert(k, x),
        covered(infos(final(out)@),
            strain@,
            part@,
            names@[at as int]@,
        ),
{
    let ghost st = backend.state();
    let ghost n = names@[at as int]@;
    let prefix = cat4(part, "-", strain, "-");
    proof {
        assert forall|id: Seq<char>| n == #[trigger] name_text(part@, strain@, id) implies
            after_prefix(n, prefix@) == Some(id) by {
            assert(n =~= prefix@ + id);
            assert(n.subrange(0, prefix@.len() as int) =~= prefix@);
            assert(n.subrange(prefix@.len() as int, n.len() as int) =~= id);
        }
    }
    match strip_prefix(names[at].as_str(), prefix.as_str()) {
        Some(rest) => {
            match SnapshotId::from_string(rest) {
                Ok(id) => {
                    proof {
                        assert(n =~= prefix@ + rest@);
                        assert(n == name_text(part@, strain@, rest@));
                        lemma_id_nonempty(rest@);
                        lemma_name_entry(part@, strain@, rest@);
                        assert(views(names@)[at as int] == n);
                        assert(views(names@).contains(n));
                        assert(part_present(st, dir@, part@, strain@, rest@));
                        let parts = strain_parts(config@, s@);
                        let i = choose|i: int| 0 <= i < parts.len() && parts[i] == part@;
                        lemma_parts_found(st, dir@, parts, strain@, rest@, i);
                    }
                    if !has_snapshot(out, strain, rest) {
                        let item = build_info(
                            config,
                            backend,
                            dir,
                            names,
                            strain,
                            s,
                            id,
                            toplevel,
                        );
                        let ghost v = infos(out@);
                        insert_info(out, item);
                        proof {
                            let k = choose|k: int|
                                0 <= k <= v.len() && infos(out@) == #[trigger] v.insert(k, item@);
                            let w = v.insert(k, item@);
                            assert(w[k] == item@);
                            assert forall|i: int| 0 <= i < w.len() implies is_snapshot(
                                st,
                                config@,
                                toplevel@,
                                (#[trigger] w[i]).strain,
                                w[i].id,
                            ) && same_info(
                                w[i],
                                snapshot_of(st, config@, toplevel@, w[i].strain, w[i].id),
                                backend.reliable(),
                            ) by {
                                if i < k {
                                    assert(w[i] == v[i]);
                                } else if i > k {
                                    assert(w[i] == v[i - 1]);
                                }
                            }
                            assert(infos(out@)[k] == item@);
                        }
                    }
                },
                Err(_) => {},
            }
        },
        None => {},
    }
}

proof fn lemma_id_nonempty(id: Seq<char>)
    requires
        id_ok(id),
    ensures
        id.len() > 0,
{
}

/// Discover all snapshots by scanning subvolumes on disk and matching them
/// against the configuration.
///
/// For each configured strain and its parts, looks for subvolume names
/// `{subvol}-{strain}-{id}`, groups by strain and ID, and returns the list in
/// chronological order. A sidecar that cannot be read counts as none.
pub fn discover_snapshots<B: FileSystemBackend>(
    config: &Config,
    backend: &B,
    toplevel: &FsPath,
) -> (r: Result<Vec<SnapshotInfo>>)
    ensures
        r matches Ok(v) ==> may_discover(
            backend.state(),
            config@,
            toplevel@,
            infos(v@),
            backend.reliable(),
        ),
        r matches Ok(v) ==> v@.len() == 0 || is_discovery(
            backend.state(),
            config@,
            toplevel@,
            infos(v@),
            false,
        ),
        backend.reliable() ==> r is Ok,
{
    let ghost st = backend.state();
    let ghost exact = backend.reliable();
    let dir = snapshot_dir(config, toplevel);
    if !subvol_exists(backend, &dir) {
        return Ok(Vec::new());
    }
    let subvols = match backend.list_subvolumes(&dir) {
        Ok(v) => v,
        Err(e) => {
            return Err(e);
        },
    };
    let names = child_names(&subvols, Ghost(st), Ghost(dir@));
    let list = config.strain.entries();
    let mut out: Vec<SnapshotInfo> = Vec::new();
    let mut i: usize = 0;
    while i < list.len()
        invariant
            i <= list.len(),
            st == backend.state(),
            exact == backend.reliable(),
            dir@ == snap_dir_of(config@, toplevel@),
            strain_views(list@) == config@.strain,
            distinct_keys(config@.strain),
            is_child_names(st, dir@, views(names@)),
            only_snapshots(st, config@, toplevel@, infos(out@), exact),
            forall|a: int, part: Seq<char>, m: int|
                #![trigger strain_parts(config@, config@.strain[a].1).contains(part), names@[m]]
                0 <= a < i && strain_parts(config@, config@.strain[a].1).contains(part) && 0 <= m
                    < names.len() ==> covered(infos(out@),
                    config@.strain[a].0,
                    part,
                    names@[m]@,
                ),
        decreases list.len() - i,
    {
        let entry = &list[i];
        let strain = entry.name.as_str();
        let s = &entry.config;
        proof {
            assert(config@.strain[i as int] == entry@);
            lemma_lookup_distinct(config@.strain, i as int);
        }
        let parts = parts_of(config, s);
        let mut p: usize = 0;
        while p < parts.len()
            invariant
                p <= parts.len(),
                i < list.len(),
                st == backend.state(),
                exact == backend.reliable(),
                dir@ == snap_dir_of(config@, toplevel@),
                strain_views(list@) == config@.strain,
                config@.strain[i as int] == (strain@, s@),
                lookup(config@.strain, strain@) == Some(s@),
                views(parts@) == strain_parts(config@, s@),
                is_child_names(st, dir@, views(names@)),
                only_snapshots(st, config@, toplevel@, infos(out@), exact),
                forall|a: int, part: Seq<char>, m: int|
                    #![trigger strain_parts(config@, config@.strain[a].1).contains(part), names@[m]]
                    0 <= a < i && strain_parts(config@, config@.strain[a].1).contains(part) && 0
                        <= m < names.len() ==> covered(infos(out@),
                        config@.strain[a].0,
                        part,
                        names@[m]@,
                    ),
                forall|b: int, m: int|
                    #![trigger parts@[b], names@[m]]
                    0 <= b < p && 0 <= m < names.len() ==> covered(infos(out@),
                        strain@,
                        parts@[b]@,
                        names@[m]@,
                    ),
            decreases parts.len() - p,
        {
            let mut n: usize = 0;
            while n < names.len()
                invariant
                    n <= names.len(),
                    p < parts.len(),
                    i < list.len(),
                    st == backend.state(),
                    exact == backend.reliable(),
                    dir@ == snap_dir_of(config@, toplevel@),
                    config@.strain[i as int] == (strain@, s@),
                    lookup(config@.strain, strain@) == Some(s@),
                    views(parts@) == strain_parts(config@, s@),
                    is_child_names(st, dir@, views(names@)),
                    only_snapshots(st, config@, toplevel@, infos(out@), exact),
                    forall|a: int, part: Seq<char>, m: int|
                        #![trigger strain_parts(config@, config@.strain[a].1).contains(part), names@[m]]
                        0 <= a < i && strain_parts(config@, config@.strain[a].1).contains(part)
                            && 0 <= m < names.len() ==> covered(infos(out@),
                            config@.strain[a].0,
                            part,
                            names@[m]@,
                        ),
                    forall|b: int, m: int|
                        #![trigger parts@[b], names@[m]]
                        0 <= b < p && 0 <= m < names.len() ==> covered(infos(out@),
                            strain@,
                            parts@[b]@,
                            names@[m]@,
                        ),
                    forall|m: int|
                        #![trigger names@[m]]
                        0 <= m < n ==> covered(infos(out@),
                            strain@,
                            parts@[p as int]@,
                            names@[m]@,
                        ),
                decreases names.len() - n,
            {
                let ghost before = infos(out@);
                proof {
                    assert(views(parts@)[p as int] == parts@[p as int]@);
                }
                add_entry(
                    config,
                    backend,
                    &dir,
                    &names,
                    n,
                    strain,
                    s,
                    parts[p].as_str(),
                    &mut out,
                    Ghost(toplevel@),
                );
                proof {
                    let now = infos(out@);
                    assert forall|q: Seq<char>, part: Seq<char>, name: Seq<char>| #[trigger]
                        covered(before, q, part, name) implies covered(now,
                        q,
                        part,
                        name,
                    ) by {
                        if now != before {
                            let (k, x) = choose|k: int, x: InfoView|
                                0 <= k <= before.len() && now == #[trigger] before.insert(k, x);
                            lemma_covered_insert(before,
                                k,
                                x,
                                q,
                                part,
                                name,
                            );
                        }
                    }
                }
                n = n + 1;
            }
            p = p + 1;
        }
        proof {
            assert forall|a: int, part: Seq<char>, m: int|
                #![trigger strain_parts(config@, config@.strain[a].1).contains(part), names@[m]]
                0 <= a < i + 1 && strain_parts(config@, config@.strain[a].1).contains(part) && 0
                    <= m < names.len() implies covered(infos(out@),
                config@.strain[a].0,
                part,
                names@[m]@,
            ) by {
                if a == i {
                    let b = choose|b: int| 0 <= b < views(parts@).len() && views(parts@)[b] == part;
                    assert(parts@[b]@ == part);
                }
            }
        }
        i = i + 1;
    }
    proof {
        let v = infos(out@);
        assert forall|strain: Seq<char>, id: Seq<char>| #[trigger]
            is_snapshot(st, config@, toplevel@, strain, id) implies exists|k: int|
            0 <= k < v.len() && (#[trigger] v[k]).strain == strain && v[k].id == id by {
            let s = lookup(config@.strain, strain)->0;
            let a = lemma_lookup_index(config@.strain, strain);
            lemma_lookup_distinct(config@.strain, a);
            let parts = strain_parts(config@, s);
            let j = lemma_found_has(st, dir@, parts, strain, id);
            let name = name_text(parts[j], strain, id);
            lemma_id_nonempty(id);
            lemma_name_entry(parts[j], strain, id);
            assert(views(names@).contains(name));
            let m = choose|m: int| 0 <= m < views(names@).len() && views(names@)[m] == name;
            assert(names@[m]@ == name);
            assert(strain_parts(config@, config@.strain[a].1).contains(parts[j]));
            assert(covered(v, strain, parts[j], name));
        }
        assert(is_discovery(st, config@, toplevel@, v, exact));
        assert(is_discovery(st, config@, toplevel@, v, false));
    }
    Ok(out)
}

/// The matching snapshots among `all`: with the given ID, and of the given
/// strain where one is given.
pub open spec fn matching(
    all: Seq<InfoView>,
    id: Seq<char>,
    strain: Option<Seq<char>>,
) -> Seq<InfoView>
    decreases all.len(),
{
    if all.len() == 0 {
        Seq::empty()
    } else {
        let rest = matching(all.drop_last(), id, strain);
        let s = all.last();
        if s.id == id && (strain is None || s.strain == strain->0) {
            rest.push(s)
        } else {
            rest
        }
    }
}

/// The tokens `strain@id` of some snapshots.
pub open spec fn qualified_texts(v: Seq<InfoView>) -> Seq<Seq<char>> {
    Seq::new(v.len(), |i: int| qualified_text(v[i].strain, v[i].id))
}

/// The error where not exactly one snapshot has the given ID, but those of `m`.
pub open spec fn selection_error(m: Seq<InfoView>, id: Seq<char>) -> ErrorView {
    if m.len() == 0 {
        ErrorView::SnapshotNotFound(id)
    } else {
        ErrorView::Other(
            "snapshot "@ + id + " exists in multiple strains — qualify it: "@ + joined(
                qualified_texts(m),
                ", "@,
            ),
        )
    }
}

/// Whether `r` is the one matching snapshot, or the error where there is none
/// or more than one.
pub open spec fn selects(
    all: Seq<InfoView>,
    id: Seq<char>,
    strain: Option<Seq<char>>,
    r: Result<SnapshotInfo>,
) -> bool {
    let m = matching(all, id, strain);
    if m.len() == 1 {
        r matches Ok(s) && s@ == m[0]
    } else {
        r matches Err(e) && e@ == selection_error(m, id)
    }
}

/// The one snapshot with the given ID, and of the given strain where one is
/// given. Where there are several, the error names them.
pub fn select_snapshot(all: &Vec<SnapshotInfo>, id: &SnapshotId, strain: Option<&str>) -> (r:
    Result<SnapshotInfo>)
    ensures
        selects(infos(all@), id@, crate::text::opt_str(strain), r),
{
    let ghost v = infos(all@);
    let ghost want = crate::text::opt_str(strain);
    let mut found: Vec<SnapshotInfo> = Vec::new();
    let mut tokens: Vec<String> = Vec::new();
    let mut i: usize = 0;
    proof {
        assert(v.take(0) =~= Seq::empty());
        assert(infos(found@) =~= Seq::empty());
        assert(views(tokens@) =~= qualified_texts(infos(found@)));
    }
    while i < all.len()
        invariant
            i <= all.len(),
            v == infos(all@),
            want == crate::text::opt_str(strain),
            infos(found@) == matching(v.take(i as int), id@, want),
            views(tokens@) == qualified_texts(infos(found@)),
        decreases all.len() - i,
    {
        let s = &all[i];
        let ghost before = infos(found@);
        proof {
            assert(v.take(i + 1).drop_last() =~= v.take(i as int));
            assert(v.take(i + 1).last() == s@);
        }
        let wanted: bool = match strain {
            Some(x) => same_text(s.strain.as_str(), x),
            None => true,
        };
        if same_text(s.id.as_str(), id.as_str()) && wanted {
            let token = qualified(s.strain.as_str(), &s.id);
            let item = s.clone();
            proof {
                lemma_views_push(tokens@, token);
                assert(infos(found@.push(item)) =~= before.push(s@));
                assert(qualified_texts(before.push(s@)) =~= qualified_texts(before).push(token@));
            }
            tokens.push(token);
            found.push(item);
        }
        i = i + 1;
    }
    proof {
        assert(v.take(v.len() as int) =~= v);
        assert(infos(found@).len() == found@.len());
    }
    if found.len() == 0 {
        return Err(RevenantError::SnapshotNotFound(id.as_str().to_owned()));
    }
    if found.len() == 1 {
        assert(infos(found@)[0] == found@[0]@);
        return Ok(found[0].clone());
    }
    Err(
        RevenantError::Other(
            cat4(
                "snapshot ",
                id.as_str(),
                " exists in multiple strains — qualify it: ",
                join_texts(&tokens, ", ").as_str(),
            ),
        ),
    )
}

/// Find a specific snapshot by ID. Without a strain, an ID that exists in
/// several strains is an error.
pub fn find_snapshot<B: FileSystemBackend>(
    config: &Config,
    backend: &B,
    toplevel: &FsPath,
    id: &SnapshotId,
    strain: Option<&str>,
) -> (r: Result<SnapshotInfo>)
    ensures
        backend.reliable() ==> exists|all: Seq<InfoView>|
            discovered(backend.state(), config@, toplevel@, all) && #[trigger] selects(
                all,
                id@,
                crate::text::opt_str(strain),
                r,
            ),
        r matches Ok(s) ==> s@.id == id@ && (strain is None || s@.strain == strain->0@)
            && is_snapshot(backend.state(), config@, toplevel@, s@.strain, s@.id),
{
    match discover_snapshots(config, backend, toplevel) {
        Ok(all) => {
            let r = select_snapshot(&all, id, strain);
            proof {
                let v = infos(all@);
                if r is Ok {
                    let k = lemma_matching_member(v, id@, crate::text::opt_str(strain));
                    assert(v[k] == r->Ok_0@);
                }
            }
            r
        },
        Err(e) => Err(e),
    }
}

proof fn lemma_matching_member(
    all: Seq<InfoView>,
    id: Seq<char>,
    strain: Option<Seq<char>>,
) -> (k: int)
    requires
        matching(all, id, strain).len() == 1,
    ensures
        0 <= k < all.len(),
        all[k] == matching(all, id, strain)[0],
        all[k].id == id,
        strain is None || all[k].strain == strain->0,
    decreases all.len(),
{
    let s = all.last();
    let rest = matching(all.drop_last(), id, strain);
    if s.id == id && (strain is None || s.strain == strain->0) {
        all.len() - 1
    } else {
        lemma_matching_member(all.drop_last(), id, strain)
    }
}

/// Reference to the snapshot from which the live rootfs subvolume was cloned.
#[derive(Debug)]
pub struct LiveParentRef {
    pub id: SnapshotId,
    pub strain: String,
}

/// The strain and ID in the name of a snapshot of the subvolume `root`.
pub open spec fn live_name(root: Seq<char>, name: Seq<char>) -> Option<(Seq<char>, Seq<char>)> {
    match after_prefix(name, root + "-"@) {
        Some(rest) => trailing_id(rest),
        None => None,
    }
}

/// Whether the live rootfs subvolume is a clone of the snapshot subvolume
/// `name`, which belongs to snapshot `id` of a strain.
pub open spec fn is_live_parent(
    st: FsState,
    c: ConfigView,
    toplevel: PathView,
    name: Seq<char>,
    strain: Seq<char>,
    id: Seq<char>,
) -> bool {
    let live = path_join(toplevel, c.sys.rootfs_subvol);
    let p = snap_dir_of(c, toplevel).push(name);
    &&& st.subvols.contains_key(live)
    &&& st.subvols.contains_key(p)
    &&& st.subvols[live].parent_uuid == Some(st.subvols[p].uuid)
    &&& live_name(c.sys.rootfs_subvol, name) == Some((strain, id))
}

/// Whether `live`, a strain and an ID, is the right answer to which snapshot
/// the live rootfs subvolume was cloned from.
pub open spec fn live_answer(
    st: FsState,
    c: ConfigView,
    toplevel: PathView,
    live: Option<(Seq<char>, Seq<char>)>,
) -> bool {
    match live {
        Some(x) => exists|name: Seq<char>| #[trigger]
            is_live_parent(st, c, toplevel, name, x.0, x.1),
        None => st.subvols.contains_key(snap_dir_of(c, toplevel)) ==> forall|
            name: Seq<char>,
            strain: Seq<char>,
            id: Seq<char>,
        | !#[trigger] is_live_parent(st, c, toplevel, name, strain, id),
    }
}

/// The reference of the live parent with its texts: strain and ID.
pub open spec fn live_view(live: Option<&LiveParentRef>) -> Option<(Seq<char>, Seq<char>)> {
    match live {
        Some(l) => Some((l.strain@, l.id@)),
        None => None,
    }
}

/// The live parent with its texts: strain and ID.
pub open spec fn live_of(live: Option<LiveParentRef>) -> Option<(Seq<char>, Seq<char>)> {
    match live {
        Some(l) => Some((l.strain@, l.id@)),
        None => None,
    }
}

/// What lists the snapshots of one state is one list.
pub proof fn lemma_discovery_unique(
    st: FsState,
    c: ConfigView,
    toplevel: PathView,
    v: Seq<InfoView>,
    w: Seq<InfoView>,
)
    requires
        is_discovery(st, c, toplevel, v, true),
        is_discovery(st, c, toplevel, w, true),
    ensures
        v == w,
{
    lemma_discovery_prefix(st, c, toplevel, v, w, v.len() as int);
    lemma_discovery_prefix(st, c, toplevel, w, v, w.len() as int);
    assert(v =~= w);
}

proof fn lemma_discovery_prefix(
    st: FsState,
    c: ConfigView,
    toplevel: PathView,
    v: Seq<InfoView>,
    w: Seq<InfoView>,
    n: int,
)
    requires
        is_discovery(st, c, toplevel, v, true),
        is_discovery(st, c, toplevel, w, true),
        0 <= n <= v.len(),
    ensures
        n <= w.len(),
        forall|i: int| 0 <= i < n ==> v[i] == w[i],
    decreases n,
{
    if n > 0 {
        let i = n - 1;
        lemma_discovery_prefix(st, c, toplevel, v, w, i);
        let x = v[i];
        assert(is_snapshot(st, c, toplevel, x.strain, x.id));
        let k = choose|k: int|
            0 <= k < w.len() && (#[trigger] w[k]).strain == x.strain && w[k].id == x.id;
        assert(w[k] == x);
        lemma_info_order(x, x, x);
        if k < i {
            assert(v[k] == w[k]);
            assert(info_less(v[k], v[i]));
        }
        if k > i {
            let y = w[i];
            assert(info_less(w[i], w[k]));
            assert(is_snapshot(st, c, toplevel, y.strain, y.id));
            let m = choose|m: int|
                0 <= m < v.len() && (#[trigger] v[m]).strain == y.strain && v[m].id == y.id;
            assert(v[m] == y);
            lemma_info_order(y, y, y);
            lemma_info_order(x, y, x);
            if m < i {
                assert(w[m] == v[m]);
                assert(info_less(w[m], w[i]));
            } else if m > i {
                assert(info_less(v[i], v[m]));
            }
        }
    }
}

/// Whether `live` is what may be told of the live parent. Where the backend is
/// not reliable, it may not be found.
pub open spec fn live_told(
    st: FsState,
    c: ConfigView,
    toplevel: PathView,
    live: Option<(Seq<char>, Seq<char>)>,
    exact: bool,
) -> bool {
    live_answer(st, c, toplevel, live) || (!exact && live is None)
}

/// Identify the snapshot whose subvolume is the parent of the live rootfs
/// subvolume. Where no such snapshot can be told, `None`.
pub fn resolve_live_parent<B: FileSystemBackend>(
    config: &Config,
    backend: &B,
    toplevel: &FsPath,
) -> (r: Option<LiveParentRef>)
    ensures
        r is Some ==> exists|name: Seq<char>| #[trigger]
            is_live_parent(backend.state(), config@, toplevel@, name, r->0.strain@, r->0.id@),
        r is None && backend.reliable() && backend.state().subvols.contains_key(
            snap_dir_of(config@, toplevel@),
        ) ==> forall|name: Seq<char>, strain: Seq<char>, id: Seq<char>|
            !#[trigger] is_live_parent(
                backend.state(),
                config@,
                toplevel@,
                name,
                strain,
                id,
            ),
        backend.reliable() && !backend.state().subvols.contains_key(
            snap_dir_of(config@, toplevel@),
        ) ==> r is None,
        live_told(backend.state(), config@, toplevel@, live_of(r), backend.reliable()),
{
    let ghost st = backend.state();
    let root = config.sys.rootfs_subvol.as_str();
    let live = match backend.subvolume_info(&toplevel.join(root)) {
        Ok(i) => i,
        Err(_) => {
            return None;
        },
    };
    let parent: u128 = match live.parent_uuid {
        Some(u) => u,
        None => {
            return None;
        },
    };
    let dir = snapshot_dir(config, toplevel);
    if !subvol_exists(backend, &dir) {
        return None;
    }
    let subvols = match backend.list_subvolumes(&dir) {
        Ok(v) => v,
        Err(_) => {
            return None;
        },
    };
    let prefix = cat2(root, "-");
    let ghost want = st.subvols[path_join(toplevel@, root@)].parent_uuid;
    let mut i: usize = 0;
    while i < subvols.len()
        invariant
            i <= subvols.len(),
            st == backend.state(),
            dir@ == snap_dir_of(config@, toplevel@),
            root@ == config@.sys.rootfs_subvol,
            prefix@ == root@ + "-"@,
            st.subvols.contains_key(dir@),
            st.subvols.contains_key(path_join(toplevel@, root@)),
            want == st.subvols[path_join(toplevel@, root@)].parent_uuid,
            want == Some(parent),
            is_listing(st, dir@, subvols@),
            forall|j: int, n: Seq<char>|
                0 <= j < i && (#[trigger] subvols[j]).path@ == #[trigger] dir@.push(n) ==> !(
                st.subvols[dir@.push(n)].uuid == parent && live_name(root@, n) is Some),
        decreases subvols.len() - i,
    {
        let s = &subvols[i];
        proof {
            assert forall|n: Seq<char>| s.path@ == #[trigger] dir@.push(n) implies s.path@.last()
                == n by {}
        }
        if s.uuid == parent {
            match s.path.file_name() {
                Some(n) => {
                    match strip_prefix(n, prefix.as_str()) {
                        Some(rest) => {
                            match SnapshotId::split_trailing(rest) {
                                Some((strain, id)) => {
                                    let found: Option<LiveParentRef> = Some(
                                        LiveParentRef { id, strain: strain.to_owned() },
                                    );
                                    proof {
                                        assert(s.path@ =~= dir@.push(n@));
                                        assert(is_live_parent(
                                            backend.state(),
                                            config@,
                                            toplevel@,
                                            n@,
                                            found->0.strain@,
                                            found->0.id@,
                                        ));
                                        let l = live_of(found)->Some_0;
                                        assert(l == (found->0.strain@, found->0.id@));
                                        assert(is_live_parent(
                                            backend.state(),
                                            config@,
                                            toplevel@,
                                            n@,
                                            l.0,
                                            l.1,
                                        ));
                                    }
                                    return found;
                                },
                                None => {},
                            }
                        },
                        None => {},
                    }
                },
                None => {
                    proof {
                        lemma_live_name_long(root@, s.path@.last());
                    }
                },
            }
        }
        i = i + 1;
    }
    proof {
        assert forall|name: Seq<char>, strain: Seq<char>, id: Seq<char>|
            !#[trigger] is_live_parent(st, config@, toplevel@, name, strain, id) by {
            if is_live_parent(st, config@, toplevel@, name, strain, id) {
                let p = dir@.push(name);
                assert(p.take(dir@.len() as int) =~= dir@);
                assert(is_child(p, dir@));
                let j = choose|j: int|
                    0 <= j < subvols.len() && (#[trigger] subvols[j]).path@ == p;
                assert(subvols[j].path@ == dir@.push(name));
            }
        }
    }
    None
}

proof fn lemma_live_name_long(root: Seq<char>, name: Seq<char>)
    requires
        name == "/"@ || name == ".."@,
    ensures
        live_name(root, name) is None,
{
    reveal_strlit("/");
    reveal_strlit("..");
    reveal_strlit("-");
    if live_name(root, name) is Some {
        let k = (root + "-"@).len() as int;
        let rest = name.subrange(k, name.len() as int);
        assert(trailing_id(rest) is Some);
        crate::snapshot::id::lemma_trailing_len(rest);
    }
}

} // verus!
