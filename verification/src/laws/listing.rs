//! Which snapshots a listing holds, which one a reference names, and which one
//! the live system came from.

use vstd::prelude::*;
use vstd::string::*;

use crate::assoc::lookup;
use crate::backend::FsState;
use crate::cli::commands::{filtered, names};
use crate::config::ConfigView;
use crate::metadata::sidecar_record;
use crate::path::{path_join, PathView};
use crate::snapshot::discovery::{
    discovered, info_sorted, is_live_parent, is_snapshot, lemma_found_has, lemma_parts_found,
    live_answer, live_name, matching, part_present, selection_error, strain_parts,
};
use crate::snapshot::id::{id_ok, law_trailing_id, name_text};
use crate::snapshot::info::{snap_dir_of, InfoView};
use crate::snapshot::laws::lemma_found_subset;
use crate::snapshot::target::TargetView;
use crate::text::{joined, text_less};

verus! {

/// A snapshot of a strain is made of the strain's subvolumes, and of the EFI
/// staging subvolume exactly if both the strain and the system sync EFI.
pub proof fn law_parts(c: ConfigView, strain: Seq<char>, p: Seq<char>)
    requires
        lookup(c.strain, strain) is Some,
    ensures
        strain_parts(c, lookup(c.strain, strain)->0).contains(p) <==> lookup(
            c.strain,
            strain,
        )->0.subvolumes.contains(p) || (lookup(c.strain, strain)->0.efi && c.sys.efi_enabled && p
            == c.sys.staging_subvol),
        forall|k: int|
            0 <= k < lookup(c.strain, strain)->0.subvolumes.len() ==> #[trigger] strain_parts(
                c,
                lookup(c.strain, strain)->0,
            )[k] == lookup(c.strain, strain)->0.subvolumes[k],
{
    let s = lookup(c.strain, strain)->0;
    let all = strain_parts(c, s);
    if s.subvolumes.contains(p) {
        let k = choose|k: int| 0 <= k < s.subvolumes.len() && s.subvolumes[k] == p;
        assert(all[k] == p);
    }
    if s.efi && c.sys.efi_enabled {
        assert(all[s.subvolumes.len() as int] == c.sys.staging_subvol);
    }
    if all.contains(p) {
        let k = choose|k: int| 0 <= k < all.len() && all[k] == p;
        if k < s.subvolumes.len() {
            assert(s.subvolumes[k] == p);
        }
    }
}

proof fn lemma_snapshot_by_part(
    st: FsState,
    c: ConfigView,
    toplevel: PathView,
    strain: Seq<char>,
    id: Seq<char>,
)
    ensures
        is_snapshot(st, c, toplevel, strain, id) <==> {
            &&& lookup(c.strain, strain) is Some
            &&& id_ok(id)
            &&& exists|p: Seq<char>|
                strain_parts(c, lookup(c.strain, strain)->0).contains(p)
                    && st.subvols.contains_key(
                    path_join(toplevel, c.sys.snapshot_subvol).push(
                        #[trigger] (p + "-"@ + strain + "-"@ + id),
                    ),
                )
        },
{
    let dir = snap_dir_of(c, toplevel);
    let parts = strain_parts(c, lookup(c.strain, strain)->0);
    if is_snapshot(st, c, toplevel, strain, id) {
        let i = lemma_found_has(st, dir, parts, strain, id);
        let p = parts[i];
        assert(parts.contains(p));
        assert(name_text(p, strain, id) == p + "-"@ + strain + "-"@ + id);
    }
    if exists|p: Seq<char>|
        parts.contains(p) && st.subvols.contains_key(
            path_join(toplevel, c.sys.snapshot_subvol).push(
                #[trigger] (p + "-"@ + strain + "-"@ + id),
            ),
        ) {
        let p = choose|p: Seq<char>|
            parts.contains(p) && st.subvols.contains_key(
                path_join(toplevel, c.sys.snapshot_subvol).push(
                    #[trigger] (p + "-"@ + strain + "-"@ + id),
                ),
            );
        let i = choose|i: int| 0 <= i < parts.len() && parts[i] == p;
        assert(part_present(st, dir, parts[i], strain, id));
        lemma_parts_found(st, dir, parts, strain, id, i);
    }
}

/// A listing holds a snapshot of each configured strain and ID of which some
/// part, named `<part>-<strain>-<id>`, is in the snapshot directory, and no
/// other; it is sorted by ID, then by strain, and holds none twice.
pub proof fn law_listed_snapshots(
    st: FsState,
    c: ConfigView,
    toplevel: PathView,
    all: Seq<InfoView>,
    strain: Seq<char>,
    id: Seq<char>,
)
    requires
        discovered(st, c, toplevel, all),
    ensures
        (exists|i: int| 0 <= i < all.len() && (#[trigger] all[i]).strain == strain && all[i].id == id)
            <==> {
            &&& st.subvols.contains_key(path_join(toplevel, c.sys.snapshot_subvol))
            &&& lookup(c.strain, strain) is Some
            &&& id_ok(id)
            &&& exists|p: Seq<char>|
                strain_parts(c, lookup(c.strain, strain)->0).contains(p)
                    && st.subvols.contains_key(
                    path_join(toplevel, c.sys.snapshot_subvol).push(
                        #[trigger] (p + "-"@ + strain + "-"@ + id),
                    ),
                )
        },
        forall|i: int, j: int|
            0 <= i < j < all.len() ==> text_less((#[trigger] all[i]).id, (#[trigger] all[j]).id)
                || (all[i].id == all[j].id && text_less(all[i].strain, all[j].strain)),
{
    lemma_snapshot_by_part(st, c, toplevel, strain, id);
    if exists|i: int|
        0 <= i < all.len() && (#[trigger] all[i]).strain == strain && all[i].id == id {
        let i = choose|i: int|
            0 <= i < all.len() && (#[trigger] all[i]).strain == strain && all[i].id == id;
        assert(is_snapshot(st, c, toplevel, all[i].strain, all[i].id));
    }
    if st.subvols.contains_key(snap_dir_of(c, toplevel)) {
        assert(info_sorted(all));
    }
}

/// What a listing says of a snapshot: the parts that are there, that EFI is in
/// it exactly if its staging subvolume is a part that is there, and the record
/// of its sidecar `<strain>-<id>.meta.toml`, if there is one.
pub proof fn law_listed_details(
    st: FsState,
    c: ConfigView,
    toplevel: PathView,
    all: Seq<InfoView>,
    i: int,
    p: Seq<char>,
)
    requires
        discovered(st, c, toplevel, all),
        0 <= i < all.len(),
    ensures
        ({
            let s = all[i];
            let dir = path_join(toplevel, c.sys.snapshot_subvol);
            let file = path_join(dir, s.strain + "-"@ + s.id + ".meta.toml"@);
            let strain = lookup(c.strain, s.strain)->0;
            &&& s.subvolumes.contains(p) <==> strain_parts(c, strain).contains(p)
                && st.subvols.contains_key(dir.push(p + "-"@ + s.strain + "-"@ + s.id))
            &&& s.efi_synced <==> strain.efi && c.sys.efi_enabled && st.subvols.contains_key(
                dir.push(c.sys.staging_subvol + "-"@ + s.strain + "-"@ + s.id),
            )
            &&& s.metadata == if st.files.contains_key(file) {
                sidecar_record(st.files[file])
            } else {
                None
            }
        }),
{
    let s = all[i];
    let dir = snap_dir_of(c, toplevel);
    let strain = lookup(c.strain, s.strain)->0;
    let parts = strain_parts(c, strain);
    assert(is_snapshot(st, c, toplevel, s.strain, s.id));
    let q = c.sys.staging_subvol;
    lemma_found_subset(st, dir, parts, s.strain, s.id, p);
    lemma_found_subset(st, dir, parts, s.strain, s.id, q);
    law_parts(c, s.strain, q);
}

pub proof fn lemma_filtered(v: Seq<InfoView>, t: Option<TargetView>, s: InfoView)
    ensures
        filtered(v, t).contains(s) <==> v.contains(s) && (t is None || names(t->0, s)),
        filtered(v, t).len() <= v.len(),
    decreases v.len(),
{
    if v.len() > 0 {
        let u = v.drop_last();
        lemma_filtered(u, t, s);
        let (all, first) = (filtered(v, t), filtered(u, t));
        if first.contains(s) {
            let k = choose|k: int| 0 <= k < first.len() && first[k] == s;
            assert(all[k] == s);
            let j = choose|j: int| 0 <= j < u.len() && u[j] == s;
            assert(v[j] == s);
        } else if all.contains(s) {
            let k = choose|k: int| 0 <= k < all.len() && all[k] == s;
            if k < first.len() {
                assert(first[k] == s);
            }
            assert(v[v.len() - 1] == s);
        }
        if v.contains(s) && (t is None || names(t->0, s)) {
            let j = choose|j: int| 0 <= j < v.len() && v[j] == s;
            if j < u.len() {
                assert(u[j] == s);
            } else {
                assert(all[first.len() as int] == s);
            }
        }
    }
}

/// A narrowed listing keeps the order of the whole one.
proof fn lemma_filtered_sorted(v: Seq<InfoView>, t: Option<TargetView>)
    requires
        info_sorted(v),
    ensures
        info_sorted(filtered(v, t)),
    decreases v.len(),
{
    if v.len() > 0 {
        let u = v.drop_last();
        assert(info_sorted(u)) by {
            assert forall|i: int, j: int| 0 <= i < j < u.len() implies
                crate::snapshot::discovery::info_less(#[trigger] u[i], #[trigger] u[j]) by {
                assert(u[i] == v[i] && u[j] == v[j]);
            }
        }
        lemma_filtered_sorted(u, t);
        let (all, first) = (filtered(v, t), filtered(u, t));
        assert forall|i: int, j: int| 0 <= i < j < all.len() implies
            crate::snapshot::discovery::info_less(#[trigger] all[i], #[trigger] all[j]) by {
            if j < first.len() {
                assert(all[i] == first[i] && all[j] == first[j]);
            } else {
                assert(first.contains(first[i]));
                lemma_filtered(u, t, first[i]);
                let k = choose|k: int| 0 <= k < u.len() && u[k] == first[i];
                assert(v[k] == all[i] && v[v.len() - 1] == all[j]);
            }
        }
    }
}

/// A listing that is not narrowed holds every snapshot; one narrowed to a
/// strain holds exactly those of the strain; one narrowed to an ID holds
/// exactly those with the ID, of the given strain where one is given. The order
/// stays that of the whole listing: by ID, then by strain.
pub proof fn law_narrowed_listing(v: Seq<InfoView>, strain: Seq<char>, id: Seq<char>, s: InfoView)
    ensures
        filtered(v, None) == v,
        filtered(v, Some(TargetView::AllInStrain { strain })).contains(s) <==> v.contains(s)
            && s.strain == strain,
        filtered(v, Some(TargetView::Single { strain: None, id })).contains(s) <==> v.contains(s)
            && s.id == id,
        filtered(v, Some(TargetView::Single { strain: Some(strain), id })).contains(s)
            <==> v.contains(s) && s.strain == strain && s.id == id,
        forall|t: Option<TargetView>, i: int, j: int|
            info_sorted(v) && 0 <= i < j < filtered(v, t).len() ==> {
                let (x, y) = (#[trigger] filtered(v, t)[i], #[trigger] filtered(v, t)[j]);
                text_less(x.id, y.id) || (x.id == y.id && text_less(x.strain, y.strain))
            },
{
    lemma_unfiltered(v);
    lemma_filtered(v, Some(TargetView::AllInStrain { strain }), s);
    lemma_filtered(v, Some(TargetView::Single { strain: None, id }), s);
    lemma_filtered(v, Some(TargetView::Single { strain: Some(strain), id }), s);
    if info_sorted(v) {
        assert forall|t: Option<TargetView>, i: int, j: int|
            info_sorted(v) && 0 <= i < j < filtered(v, t).len() implies {
            let (x, y) = (#[trigger] filtered(v, t)[i], #[trigger] filtered(v, t)[j]);
            text_less(x.id, y.id) || (x.id == y.id && text_less(x.strain, y.strain))
        } by {
            lemma_filtered_sorted(v, t);
        }
    }
}

proof fn lemma_unfiltered(v: Seq<InfoView>)
    ensures
        filtered(v, None) == v,
    decreases v.len(),
{
    if v.len() > 0 {
        lemma_unfiltered(v.drop_last());
        assert(v.drop_last().push(v.last()) =~= v);
    } else {
        assert(filtered(v, None) =~= v);
    }
}

/// A reference to one snapshot names those with its ID, of its strain where it
/// gives one; so there is one, and only one, exactly if a single listed
/// snapshot has that ID and strain.
pub proof fn law_named_snapshots(
    all: Seq<InfoView>,
    id: Seq<char>,
    strain: Option<Seq<char>>,
    s: InfoView,
)
    ensures
        matching(all, id, strain).contains(s) <==> all.contains(s) && s.id == id && (
        strain matches Some(x) ==> s.strain == x),
        matching(all, id, strain).len() == 0 <==> forall|i: int|
            0 <= i < all.len() ==> !((#[trigger] all[i]).id == id && (strain matches Some(x)
                ==> all[i].strain == x)),
        info_sorted(all) && strain is Some ==> matching(all, id, strain).len() <= 1,
    decreases all.len(),
{
    lemma_matching(all, id, strain, s);
    let m = matching(all, id, strain);
    if m.len() > 0 {
        lemma_matching(all, id, strain, m[0]);
        assert(m.contains(m[0]));
        let k = choose|k: int| 0 <= k < all.len() && all[k] == m[0];
        assert(all[k].id == id);
    } else {
        assert forall|i: int| 0 <= i < all.len() implies !((#[trigger] all[i]).id == id && (
        strain matches Some(x) ==> all[i].strain == x)) by {
            lemma_matching(all, id, strain, all[i]);
            assert(all.contains(all[i]));
        }
    }
    if info_sorted(all) && strain is Some && all.len() > 0 {
        let u = all.drop_last();
        assert(info_sorted(u)) by {
            assert forall|i: int, j: int| 0 <= i < j < u.len() implies
                crate::snapshot::discovery::info_less(#[trigger] u[i], #[trigger] u[j]) by {
                assert(u[i] == all[i] && u[j] == all[j]);
            }
        }
        law_named_snapshots(u, id, strain, s);
        let rest = matching(u, id, strain);
        if rest.len() == 1 && m.len() == 2 {
            lemma_matching(u, id, strain, rest[0]);
            assert(rest.contains(rest[0]));
            let k = choose|k: int| 0 <= k < u.len() && u[k] == rest[0];
            assert(crate::snapshot::discovery::info_less(all[k], all[all.len() - 1]));
            crate::text::lemma_text_less_irreflexive(id);
            crate::text::lemma_text_less_irreflexive(strain->0);
        }
    }
}

proof fn lemma_matching(
    all: Seq<InfoView>,
    id: Seq<char>,
    strain: Option<Seq<char>>,
    s: InfoView,
)
    ensures
        matching(all, id, strain).contains(s) <==> all.contains(s) && s.id == id && (
        strain matches Some(x) ==> s.strain == x),
    decreases all.len(),
{
    if all.len() > 0 {
        let u = all.drop_last();
        lemma_matching(u, id, strain, s);
        let (m, first) = (matching(all, id, strain), matching(u, id, strain));
        if first.contains(s) {
            let k = choose|k: int| 0 <= k < first.len() && first[k] == s;
            assert(m[k] == s);
            let j = choose|j: int| 0 <= j < u.len() && u[j] == s;
            assert(all[j] == s);
        } else if m.contains(s) {
            let k = choose|k: int| 0 <= k < m.len() && m[k] == s;
            if k < first.len() {
                assert(first[k] == s);
            }
            assert(all[all.len() - 1] == s);
        }
        if all.contains(s) && s.id == id && (strain matches Some(x) ==> s.strain == x) {
            let j = choose|j: int| 0 <= j < all.len() && all[j] == s;
            if j < u.len() {
                assert(u[j] == s);
            } else {
                assert(m[first.len() as int] == s);
            }
        }
    }
}

/// The live parent is the snapshot `<rootfs>-<strain>-<id>` whose UUID the live
/// rootfs subvolume has as its parent's; there is none exactly if no subvolume
/// of such a name has it.
pub proof fn law_live_parent(
    st: FsState,
    c: ConfigView,
    toplevel: PathView,
    strain: Seq<char>,
    id: Seq<char>,
)
    requires
        st.subvols.contains_key(path_join(toplevel, c.sys.snapshot_subvol)),
    ensures
        live_answer(st, c, toplevel, Some((strain, id))) <==> {
            let live = path_join(toplevel, c.sys.rootfs_subvol);
            let part = path_join(toplevel, c.sys.snapshot_subvol).push(
                c.sys.rootfs_subvol + "-"@ + strain + "-"@ + id,
            );
            &&& strain.len() > 0
            &&& id_ok(id)
            &&& st.subvols.contains_key(live)
            &&& st.subvols.contains_key(part)
            &&& st.subvols[live].parent_uuid == Some(st.subvols[part].uuid)
        },
        live_answer(st, c, toplevel, None) <==> forall|s: Seq<char>, i: Seq<char>|
            !#[trigger] live_answer(st, c, toplevel, Some((s, i))),
{
    reveal_strlit("-");
    assert("-"@ =~= seq!['-']);
    let root = c.sys.rootfs_subvol;
    let dir = snap_dir_of(c, toplevel);
    let want = root + "-"@ + strain + "-"@ + id;
    if live_answer(st, c, toplevel, Some((strain, id))) {
        let name = choose|name: Seq<char>| #[trigger]
            is_live_parent(st, c, toplevel, name, strain, id);
        let rest = name.subrange((root + "-"@).len() as int, name.len() as int);
        law_trailing_id(rest, strain, id);
        assert(name =~= (root + "-"@) + rest);
        assert(name =~= want);
    }
    if strain.len() > 0 && id_ok(id) && st.subvols.contains_key(path_join(toplevel, root))
        && st.subvols.contains_key(dir.push(want)) && st.subvols[path_join(
        toplevel,
        root,
    )].parent_uuid == Some(st.subvols[dir.push(want)].uuid) {
        let p = root + "-"@;
        let rest = strain + seq!['-'] + id;
        assert(want =~= p + rest);
        assert(p =~= want.subrange(0, p.len() as int));
        assert(want.subrange(p.len() as int, want.len() as int) =~= rest);
        law_trailing_id(rest, strain, id);
        assert(live_name(root, want) == Some((strain, id)));
        let x = (strain, id);
        assert(is_live_parent(st, c, toplevel, want, x.0, x.1));
    }
    if live_answer(st, c, toplevel, None) {
        assert forall|s: Seq<char>, i: Seq<char>| !#[trigger] live_answer(
            st,
            c,
            toplevel,
            Some((s, i)),
        ) by {
            if live_answer(st, c, toplevel, Some((s, i))) {
                let name = choose|name: Seq<char>| #[trigger]
                    is_live_parent(st, c, toplevel, name, s, i);
                assert(is_live_parent(st, c, toplevel, name, s, i));
            }
        }
    }
    if forall|s: Seq<char>, i: Seq<char>| !#[trigger] live_answer(st, c, toplevel, Some((s, i))) {
        assert forall|name: Seq<char>, s: Seq<char>, i: Seq<char>| !#[trigger] is_live_parent(
            st,
            c,
            toplevel,
            name,
            s,
            i,
        ) by {
            if is_live_parent(st, c, toplevel, name, s, i) {
                let live = Some((s, i));
                assert(is_live_parent(st, c, toplevel, name, live->Some_0.0, live->Some_0.1));
                assert(live_answer(st, c, toplevel, live));
            }
        }
    }
}

/// Snapshots are listed by their IDs, and those with one ID by their strains;
/// none is listed twice.
pub proof fn law_listed_in_order(
    st: FsState,
    c: ConfigView,
    toplevel: PathView,
    all: Seq<InfoView>,
    i: int,
    j: int,
)
    requires
        discovered(st, c, toplevel, all),
        0 <= i < j < all.len(),
    ensures
        text_less(all[i].id, all[j].id) || (all[i].id == all[j].id && text_less(
            all[i].strain,
            all[j].strain,
        )),
        all[i].id != all[j].id || all[i].strain != all[j].strain,
{
    assert(crate::snapshot::discovery::info_less(all[i], all[j]));
    crate::text::lemma_text_less_irreflexive(all[i].strain);
    crate::text::lemma_text_less_irreflexive(all[i].id);
}

/// Where more than one snapshot fits a reference, the refusal names each with
/// its strain.
pub proof fn law_ambiguous_reference(m: Seq<InfoView>, id: Seq<char>, i: int)
    requires
        0 <= i < m.len(),
    ensures
        selection_error(m, id) matches crate::error::ErrorView::Other(t)
            && crate::laws::health::occurs(m[i].strain + "@"@ + m[i].id, t),
{
    let v = crate::snapshot::discovery::qualified_texts(m);
    let list = joined(v, ", "@);
    crate::laws::commands::lemma_joined_has(v, ", "@, i);
    let t = selection_error(m, id)->Other_0;
    let (x, y) = choose|x: Seq<char>, y: Seq<char>| list == #[trigger] (x + v[i] + y);
    let head = "snapshot "@ + id + " exists in multiple strains — qualify it: "@;
    assert(t =~= (head + x) + v[i] + y);
    crate::laws::setup::lemma_occurs(head + x, v[i], y, t);
}

} // verus!
