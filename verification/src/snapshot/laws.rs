//! What holds between taking, finding and deleting snapshots.

use vstd::prelude::*;

use crate::assoc::lookup;
use crate::backend::effects::{gone, pruned};
use crate::backend::FsState;
use crate::config::ConfigView;
use crate::metadata::{
    is_protected, law_sidecar_name_round_trip, sidecar_at, sidecar_in, sidecar_name, storable,
    MetaView,
};
use crate::path::{is_component, lemma_join_component, within, PathView};
use crate::snapshot::discovery::{
    discovered, is_discovery, is_snapshot, part_present, parts_found, snapshot_of, strain_parts,
};
use crate::snapshot::id::{
    id_ok, is_token, law_parse_undoes_naming, name_text,
};
use crate::snapshot::info::{snap_dir_of, InfoView};
use crate::snapshot::operations::{
    all_paths, all_sidecars, chosen, deleted_all, info_paths, info_sidecar, part_path, recorded,
    taken,
};

verus! {

/// Whether the parts of a snapshot have plain names: each is a single path
/// component.
pub open spec fn plain_parts(parts: Seq<Seq<char>>, strain: Seq<char>, id: Seq<char>) -> bool {
    forall|i: int|
        0 <= i < parts.len() ==> is_component(name_text(#[trigger] parts[i], strain, id))
}

proof fn lemma_all_found(
    st: FsState,
    dir: PathView,
    parts: Seq<Seq<char>>,
    strain: Seq<char>,
    id: Seq<char>,
)
    requires
        forall|i: int|
            0 <= i < parts.len() ==> part_present(st, dir, #[trigger] parts[i], strain, id),
    ensures
        parts_found(st, dir, parts, strain, id) == parts,
    decreases parts.len(),
{
    if parts.len() > 0 {
        let init = parts.drop_last();
        assert forall|i: int| 0 <= i < init.len() implies part_present(
            st,
            dir,
            #[trigger] init[i],
            strain,
            id,
        ) by {
            assert(init[i] == parts[i]);
        }
        lemma_all_found(st, dir, init, strain, id);
        assert(part_present(st, dir, parts[parts.len() - 1], strain, id));
        assert(init.push(parts.last()) =~= parts);
    } else {
        assert(parts_found(st, dir, parts, strain, id) =~= parts);
    }
}

/// What was taken is found: a snapshot that was just taken is discovered, with
/// all its parts, and with its record where one was written that can be read
/// back.
pub proof fn law_taken_is_discovered(
    a: FsState,
    mid: FsState,
    b: FsState,
    c: ConfigView,
    toplevel: PathView,
    strain: Seq<char>,
    id: Seq<char>,
    meta: Option<MetaView>,
    found: Seq<InfoView>,
) -> (i: int)
    requires
        taken(a, mid, c, toplevel, strain, id),
        recorded(mid, b, sidecar_at(snap_dir_of(c, toplevel), strain, id), meta),
        discovered(b, c, toplevel, found),
        id_ok(id),
        lookup(c.strain, strain)->0.subvolumes.len() > 0,
        plain_parts(strain_parts(c, lookup(c.strain, strain)->0), strain, id),
    ensures
        0 <= i < found.len(),
        found[i].strain == strain,
        found[i].id == id,
        found[i].subvolumes == strain_parts(c, lookup(c.strain, strain)->0),
        found[i].efi_synced == (lookup(c.strain, strain)->0.efi && c.sys.efi_enabled),
        (meta matches Some(m) && storable(m)) ==> found[i].metadata == meta,
{
    let s = lookup(c.strain, strain)->0;
    let parts = strain_parts(c, s);
    let dir = snap_dir_of(c, toplevel);
    assert(b.subvols == mid.subvols);
    assert forall|i: int| 0 <= i < parts.len() implies part_present(
        b,
        dir,
        #[trigger] parts[i],
        strain,
        id,
    ) by {
        let name = name_text(parts[i], strain, id);
        assert(is_component(name));
        lemma_join_component(dir, name);
        assert(part_path(c, toplevel, strain, id, parts[i]) == dir.push(name));
        if i < s.subvolumes.len() {
            assert(parts[i] == s.subvolumes[i]);
        }
    }
    lemma_all_found(b, dir, parts, strain, id);
    assert(parts.len() > 0);
    assert(is_snapshot(b, c, toplevel, strain, id));
    assert(b.subvols.contains_key(dir));
    let i = choose|i: int|
        0 <= i < found.len() && (#[trigger] found[i]).strain == strain && found[i].id == id;
    if s.efi && c.sys.efi_enabled {
        assert(parts[parts.len() - 1] == c.sys.staging_subvol);
        assert(parts.contains(c.sys.staging_subvol));
    }
    i
}

pub proof fn lemma_found_subset(
    st: FsState,
    dir: PathView,
    parts: Seq<Seq<char>>,
    strain: Seq<char>,
    id: Seq<char>,
    part: Seq<char>,
)
    ensures
        parts_found(st, dir, parts, strain, id).contains(part) <==> parts.contains(part)
            && part_present(st, dir, part, strain, id),
    decreases parts.len(),
{
    if parts.len() > 0 {
        let init = parts.drop_last();
        lemma_found_subset(st, dir, init, strain, id, part);
        let before = parts_found(st, dir, init, strain, id);
        let all = parts_found(st, dir, parts, strain, id);
        if parts.contains(part) {
            let k = choose|k: int| 0 <= k < parts.len() && parts[k] == part;
            if k < init.len() {
                assert(init[k] == part);
            }
        }
        if init.contains(part) {
            let k = choose|k: int| 0 <= k < init.len() && init[k] == part;
            assert(parts[k] == part);
        }
        assert(parts[parts.len() - 1] == parts.last());
        if part_present(st, dir, parts.last(), strain, id) {
            assert(all[before.len() as int] == parts.last());
            if before.contains(part) {
                let k = choose|k: int| 0 <= k < before.len() && before[k] == part;
                assert(all[k] == part);
            }
            if all.contains(part) {
                let k = choose|k: int| 0 <= k < all.len() && all[k] == part;
                if k < before.len() {
                    assert(before[k] == part);
                }
            }
        }
    }
}

/// What was deleted is gone: a snapshot that was deleted is not found any more.
pub proof fn law_deleted_is_gone(
    a: FsState,
    b: FsState,
    c: ConfigView,
    toplevel: PathView,
    strain: Seq<char>,
    id: Seq<char>,
)
    requires
        pruned(
            a,
            b,
            info_paths(c, toplevel, snapshot_of(a, c, toplevel, strain, id)),
            seq![sidecar_at(snap_dir_of(c, toplevel), strain, id)],
            true,
        ),
        plain_parts(strain_parts(c, lookup(c.strain, strain)->0), strain, id),
    ensures
        !is_snapshot(b, c, toplevel, strain, id),
        sidecar_in(b, sidecar_at(snap_dir_of(c, toplevel), strain, id)) is None,
{
    let s = snapshot_of(a, c, toplevel, strain, id);
    let dir = snap_dir_of(c, toplevel);
    let parts = strain_parts(c, lookup(c.strain, strain)->0);
    let left = parts_found(b, dir, parts, strain, id);
    if left.len() > 0 {
        let part = left[0];
        assert(left.contains(part));
        lemma_found_subset(b, dir, parts, strain, id, part);
        let name = name_text(part, strain, id);
        let k = choose|k: int| 0 <= k < parts.len() && parts[k] == part;
        assert(is_component(name_text(parts[k], strain, id)));
        lemma_join_component(dir, name);
        let p = dir.push(name);
        assert(b.subvols.contains_key(p));
        assert(a.subvols.contains_key(p));
        lemma_found_subset(a, dir, parts, strain, id, part);
        let j = choose|j: int| 0 <= j < s.subvolumes.len() && s.subvolumes[j] == part;
        let paths = info_paths(c, toplevel, s);
        assert(paths[j] == p);
        assert(p.take(p.len() as int) =~= p);
        assert(gone(a, paths, p)) by {
            reveal(gone);
            assert(a.subvols.contains_key(paths[j]) && within(p, paths[j]));
        }
    }
    let side = sidecar_at(dir, strain, id);
    assert(seq![side][0] == side);
    assert(!b.files.contains_key(side));
}

/// Whether a listed snapshot is regular: its strain's name and its ID are, and
/// its parts have plain names.
pub open spec fn is_regular(s: InfoView) -> bool {
    &&& is_token(s.strain)
    &&& id_ok(s.id)
    &&& plain_parts(s.subvolumes, s.strain, s.id)
    &&& forall|i: int| 0 <= i < s.subvolumes.len() ==> (#[trigger] s.subvolumes[i]).len() > 0
    &&& is_component(sidecar_name(s.strain, s.id))
}

proof fn lemma_path_owner(c: ConfigView, toplevel: PathView, v: Seq<InfoView>, p: PathView)
    requires
        all_paths(c, toplevel, v).contains(p),
    ensures
        exists|k: int, i: int|
            0 <= k < v.len() && 0 <= i < v[k].subvolumes.len() && p == #[trigger] part_path(
                c,
                toplevel,
                v[k].strain,
                v[k].id,
                v[k].subvolumes[i],
            ),
    decreases v.len(),
{
    if v.len() > 0 {
        let init = v.drop_last();
        let before = all_paths(c, toplevel, init);
        let last = info_paths(c, toplevel, v.last());
        let all = all_paths(c, toplevel, v);
        let n = choose|n: int| 0 <= n < all.len() && all[n] == p;
        if n < before.len() {
            assert(before[n] == p);
            lemma_path_owner(c, toplevel, init, p);
            let (k, i) = choose|k: int, i: int|
                0 <= k < init.len() && 0 <= i < init[k].subvolumes.len() && p
                    == #[trigger] part_path(
                    c,
                    toplevel,
                    init[k].strain,
                    init[k].id,
                    init[k].subvolumes[i],
                );
            assert(v[k] == init[k]);
            assert(p == part_path(c, toplevel, v[k].strain, v[k].id, v[k].subvolumes[i]));
        } else {
            let i = n - before.len();
            assert(last[i] == p);
            let k = v.len() - 1;
            assert(p == part_path(c, toplevel, v[k].strain, v[k].id, v[k].subvolumes[i]));
        }
    }
}

proof fn lemma_sidecar_owner(c: ConfigView, toplevel: PathView, v: Seq<InfoView>, p: PathView)
    requires
        all_sidecars(c, toplevel, v).contains(p),
    ensures
        exists|k: int| 0 <= k < v.len() && p == #[trigger] info_sidecar(c, toplevel, v[k]),
    decreases v.len(),
{
    if v.len() > 0 {
        let init = v.drop_last();
        let before = all_sidecars(c, toplevel, init);
        let all = all_sidecars(c, toplevel, v);
        let n = choose|n: int| 0 <= n < all.len() && all[n] == p;
        if n < before.len() {
            assert(before[n] == p);
            lemma_sidecar_owner(c, toplevel, init, p);
            let k = choose|k: int|
                0 <= k < init.len() && p == #[trigger] info_sidecar(c, toplevel, init[k]);
            assert(v[k] == init[k]);
            assert(p == info_sidecar(c, toplevel, v[k]));
        } else {
            assert(p == info_sidecar(c, toplevel, v[v.len() - 1]));
        }
    }
}

/// Whether no path is both a subvolume and a file.
pub open spec fn is_consistent(st: FsState) -> bool {
    forall|p: PathView| #[trigger] st.files.contains_key(p) ==> !st.subvols.contains_key(p)
}

proof fn lemma_same_found(
    a: FsState,
    b: FsState,
    dir: PathView,
    parts: Seq<Seq<char>>,
    strain: Seq<char>,
    id: Seq<char>,
)
    requires
        forall|i: int|
            0 <= i < parts.len() ==> part_present(b, dir, #[trigger] parts[i], strain, id)
                == part_present(a, dir, parts[i], strain, id),
    ensures
        parts_found(b, dir, parts, strain, id) == parts_found(a, dir, parts, strain, id),
    decreases parts.len(),
{
    if parts.len() > 0 {
        let init = parts.drop_last();
        assert forall|i: int| 0 <= i < init.len() implies part_present(
            b,
            dir,
            #[trigger] init[i],
            strain,
            id,
        ) == part_present(a, dir, init[i], strain, id) by {
            assert(init[i] == parts[i]);
        }
        lemma_same_found(a, b, dir, init, strain, id);
        assert(part_present(b, dir, parts[parts.len() - 1], strain, id) == part_present(
            a,
            dir,
            parts[parts.len() - 1],
            strain,
            id,
        ));
    }
}

/// Deletion spares the rest: a snapshot that is not among those deleted is
/// there afterwards as it was before.
pub proof fn law_deletion_spares_the_rest(
    a: FsState,
    b: FsState,
    c: ConfigView,
    toplevel: PathView,
    deleted: Seq<InfoView>,
    strain: Seq<char>,
    id: Seq<char>,
)
    requires
        is_consistent(a),
        deleted_all(a, b, c, toplevel, deleted, true),
        is_snapshot(a, c, toplevel, strain, id),
        is_token(strain),
        id_ok(id),
        is_component(sidecar_name(strain, id)),
        plain_parts(strain_parts(c, lookup(c.strain, strain)->0), strain, id),
        forall|i: int|
            0 <= i < strain_parts(c, lookup(c.strain, strain)->0).len() ==> (
            #[trigger] strain_parts(c, lookup(c.strain, strain)->0)[i]).len() > 0,
        forall|k: int|
            0 <= k < deleted.len() ==> is_regular(#[trigger] deleted[k]) && !(deleted[k].strain
                == strain && deleted[k].id == id),
    ensures
        is_snapshot(b, c, toplevel, strain, id),
        snapshot_of(b, c, toplevel, strain, id) == snapshot_of(a, c, toplevel, strain, id),
{
    let dir = snap_dir_of(c, toplevel);
    let parts = strain_parts(c, lookup(c.strain, strain)->0);
    let paths = all_paths(c, toplevel, deleted);
    let files = all_sidecars(c, toplevel, deleted);
    assert forall|i: int| 0 <= i < parts.len() implies part_present(
        b,
        dir,
        #[trigger] parts[i],
        strain,
        id,
    ) == part_present(a, dir, parts[i], strain, id) by {
        let name = name_text(parts[i], strain, id);
        let p = dir.push(name);
        if gone(a, paths, p) {
            reveal(gone);
            let n = choose|n: int|
                0 <= n < paths.len() && a.subvols.contains_key(#[trigger] paths[n]) && within(
                    p,
                    paths[n],
                );
            assert(paths.contains(paths[n]));
            lemma_path_owner(c, toplevel, deleted, paths[n]);
            let (k, j) = choose|k: int, j: int|
                0 <= k < deleted.len() && 0 <= j < deleted[k].subvolumes.len() && paths[n]
                    == #[trigger] part_path(
                    c,
                    toplevel,
                    deleted[k].strain,
                    deleted[k].id,
                    deleted[k].subvolumes[j],
                );
            let x = deleted[k];
            let other = name_text(x.subvolumes[j], x.strain, x.id);
            assert(is_regular(x));
            assert(is_component(other));
            lemma_join_component(dir, other);
            assert(p.take(p.len() as int) =~= p);
            assert(p == dir.push(other));
            assert(p.last() == name && dir.push(other).last() == other);
            assert(parts[i].len() > 0);
            law_parse_undoes_naming(name, parts[i], strain, id);
            law_parse_undoes_naming(other, x.subvolumes[j], x.strain, x.id);
        }
    }
    lemma_same_found(a, b, dir, parts, strain, id);
    let side = sidecar_at(dir, strain, id);
    lemma_join_component(dir, sidecar_name(strain, id));
    if a.files.contains_key(side) {
        if gone(a, paths, side) {
            reveal(gone);
            let n = choose|n: int|
                0 <= n < paths.len() && a.subvols.contains_key(#[trigger] paths[n]) && within(
                    side,
                    paths[n],
                );
            assert(paths.contains(paths[n]));
            lemma_path_owner(c, toplevel, deleted, paths[n]);
            let (k, j) = choose|k: int, j: int|
                0 <= k < deleted.len() && 0 <= j < deleted[k].subvolumes.len() && paths[n]
                    == #[trigger] part_path(
                    c,
                    toplevel,
                    deleted[k].strain,
                    deleted[k].id,
                    deleted[k].subvolumes[j],
                );
            let x = deleted[k];
            let other = name_text(x.subvolumes[j], x.strain, x.id);
            assert(is_regular(x));
            assert(is_component(other));
            lemma_join_component(dir, other);
            assert(side.take(side.len() as int) =~= side);
            assert(side == dir.push(other));
        }
        if files.contains(side) {
            lemma_sidecar_owner(c, toplevel, deleted, side);
            let k = choose|k: int|
                0 <= k < deleted.len() && side == #[trigger] info_sidecar(
                    c,
                    toplevel,
                    deleted[k],
                );
            let x = deleted[k];
            assert(is_regular(x));
            lemma_join_component(dir, sidecar_name(x.strain, x.id));
            assert(side.last() == sidecar_name(strain, id));
            assert(side.last() == sidecar_name(x.strain, x.id));
            law_sidecar_name_round_trip(sidecar_name(strain, id), strain, id);
            law_sidecar_name_round_trip(sidecar_name(x.strain, x.id), x.strain, x.id);
        }
    }
    assert(b.files.contains_key(side) == a.files.contains_key(side));
}

proof fn lemma_chosen(all: Seq<InfoView>, strain: Seq<char>, protected: bool, k: int)
    requires
        0 <= k < chosen(all, strain, protected).len(),
    ensures
        all.contains(chosen(all, strain, protected)[k]),
        chosen(all, strain, protected)[k].strain == strain,
        is_protected(chosen(all, strain, protected)[k].metadata) == protected,
    decreases all.len(),
{
    let init = all.drop_last();
    let before = chosen(init, strain, protected);
    if k < before.len() {
        lemma_chosen(init, strain, protected, k);
        let j = choose|j: int| 0 <= j < init.len() && init[j] == before[k];
        assert(all[j] == before[k]);
    } else {
        assert(all[all.len() - 1] == all.last());
    }
}

/// Deleting the snapshots of a strain leaves a protected one as it was.
pub proof fn law_bulk_delete_spares_protected(
    a: FsState,
    b: FsState,
    c: ConfigView,
    toplevel: PathView,
    all: Seq<InfoView>,
    strain: Seq<char>,
    i: int,
)
    requires
        is_consistent(a),
        is_discovery(a, c, toplevel, all, true),
        deleted_all(a, b, c, toplevel, chosen(all, strain, false), true),
        0 <= i < all.len(),
        is_protected(all[i].metadata),
        forall|k: int| 0 <= k < all.len() ==> is_regular(#[trigger] all[k]),
        plain_parts(strain_parts(c, lookup(c.strain, all[i].strain)->0), all[i].strain, all[i].id),
        forall|k: int|
            0 <= k < strain_parts(c, lookup(c.strain, all[i].strain)->0).len() ==> (
            #[trigger] strain_parts(c, lookup(c.strain, all[i].strain)->0)[k]).len() > 0,
    ensures
        is_snapshot(b, c, toplevel, all[i].strain, all[i].id),
        snapshot_of(b, c, toplevel, all[i].strain, all[i].id) == snapshot_of(
            a,
            c,
            toplevel,
            all[i].strain,
            all[i].id,
        ),
{
    let s = all[i];
    let deleted = chosen(all, strain, false);
    assert(is_regular(s));
    assert forall|k: int| 0 <= k < deleted.len() implies is_regular(#[trigger] deleted[k]) && !(
    deleted[k].strain == s.strain && deleted[k].id == s.id) by {
        lemma_chosen(all, strain, false, k);
        let j = choose|j: int| 0 <= j < all.len() && all[j] == deleted[k];
        assert(is_regular(all[j]));
        if deleted[k].strain == s.strain && deleted[k].id == s.id {
            if j != i {
                if j < i {
                    assert(crate::snapshot::discovery::info_less(all[j], all[i]));
                } else {
                    assert(crate::snapshot::discovery::info_less(all[i], all[j]));
                }
                crate::text::lemma_text_less_irreflexive(s.id);
                crate::text::lemma_text_less_irreflexive(s.strain);
            }
        }
    }
    law_deletion_spares_the_rest(a, b, c, toplevel, deleted, s.strain, s.id);
}

} // verus!
