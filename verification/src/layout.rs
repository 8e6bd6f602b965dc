//! Plain layouts: subvolumes side by side at the top level, snapshots in a
//! directory of their own. On such a layout operations are possible whenever
//! what they need is there and what they make is not.

use vstd::prelude::*;

use crate::assoc::lookup;
use crate::backend::{can_rename, vacant, FsState};
use crate::config::ConfigView;
use crate::metadata::{sidecar_at, sidecar_name, MetaView};
use crate::path::{
    is_component, lemma_join_component, lemma_within_comparable, lemma_within_self,
    lemma_within_trans, path_join, path_of, within, PathView,
};
use crate::restore::{all_apart, is_beside, job_of, marker_name, RestoreJob};
use crate::snapshot::discovery::strain_parts;
use crate::snapshot::id::name_text;
use crate::snapshot::info::{snap_dir_of, InfoView};
use crate::snapshot::laws::plain_parts;
use crate::snapshot::operations::{
    all_clear, apart, efi_clear, efi_separate, is_part_path, part_path, ready, recorded, taken,
    temp_path,
};

verus! {

/// Whether a strain lies in a plain layout: its subvolumes, the snapshot
/// directory and the EFI staging subvolume have plain names of their own.
pub open spec fn is_plain(c: ConfigView, strain: Seq<char>) -> bool {
    let s = lookup(c.strain, strain)->0;
    &&& lookup(c.strain, strain) is Some
    &&& is_component(c.sys.snapshot_subvol)
    &&& is_component(c.sys.staging_subvol)
    &&& c.sys.staging_subvol != c.sys.snapshot_subvol
    &&& s.subvolumes.no_duplicates()
    &&& !s.subvolumes.contains(c.sys.staging_subvol)
    &&& !s.subvolumes.contains(c.sys.snapshot_subvol)
    &&& forall|i: int| 0 <= i < s.subvolumes.len() ==> is_component(#[trigger] s.subvolumes[i])
}

/// Whether the names that a snapshot of a strain takes are plain and its own.
pub open spec fn plain_names(c: ConfigView, strain: Seq<char>, id: Seq<char>) -> bool {
    let tmp = name_text(c.sys.staging_subvol, strain, id) + "-rw-tmp"@;
    &&& plain_parts(lookup(c.strain, strain)->0.subvolumes, strain, id)
    &&& is_component(name_text(c.sys.staging_subvol, strain, id))
    &&& is_component(tmp)
    &&& tmp != c.sys.snapshot_subvol
    &&& tmp != c.sys.staging_subvol
}

/// Whether a snapshot's parts have free places, and its subvolumes exist.
pub open spec fn room_for(
    st: FsState,
    c: ConfigView,
    toplevel: PathView,
    strain: Seq<char>,
    id: Seq<char>,
) -> bool {
    let s = lookup(c.strain, strain)->0;
    let dir = toplevel.push(c.sys.snapshot_subvol);
    &&& st.subvols.contains_key(dir) || vacant(st, dir)
    &&& forall|i: int|
        0 <= i < s.subvolumes.len() ==> st.subvols.contains_key(
            toplevel.push(#[trigger] s.subvolumes[i]),
        ) && vacant(st, dir.push(name_text(s.subvolumes[i], strain, id)))
    &&& s.efi && c.sys.efi_enabled ==> {
        let staging = toplevel.push(c.sys.staging_subvol);
        &&& st.subvols.contains_key(staging) || vacant(st, staging)
        &&& vacant(st, toplevel.push(name_text(c.sys.staging_subvol, strain, id) + "-rw-tmp"@))
        &&& vacant(st, dir.push(name_text(c.sys.staging_subvol, strain, id)))
        &&& apart(path_of(c.sys.efi_mount), toplevel)
    }
}

proof fn lemma_siblings(base: PathView, a: Seq<char>, b: Seq<char>)
    requires
        a != b,
    ensures
        apart(base.push(a), base.push(b)),
{
    let p = base.push(a);
    let q = base.push(b);
    assert(p.take(p.len() as int) =~= p);
    assert(q.take(q.len() as int) =~= q);
    assert(p.last() == a && q.last() == b);
}

proof fn lemma_cousins(base: PathView, a: Seq<char>, dir: Seq<char>, b: Seq<char>)
    requires
        a != dir,
    ensures
        apart(base.push(a), base.push(dir).push(b)),
{
    let p = base.push(a);
    let q = base.push(dir).push(b);
    let n = p.len() as int;
    assert(q.take(n) =~= base.push(dir));
    assert(p.last() == a && base.push(dir).last() == dir);
}

proof fn lemma_names_apart(a: Seq<char>, b: Seq<char>, strain: Seq<char>, id: Seq<char>)
    requires
        a != b,
    ensures
        name_text(a, strain, id) != name_text(b, strain, id),
{
    let x = name_text(a, strain, id);
    let y = name_text(b, strain, id);
    if x == y {
        let k = "-"@.len() + strain.len() + "-"@.len() + id.len();
        assert(x.len() == a.len() + k);
        assert(y.len() == b.len() + k);
        assert(x.take(a.len() as int) =~= a);
        assert(y.take(b.len() as int) =~= b);
    }
}

proof fn lemma_outside_toplevel(mount: PathView, toplevel: PathView, p: PathView)
    requires
        apart(mount, toplevel),
        within(p, toplevel),
    ensures
        apart(mount, p),
{
    if within(mount, p) {
        lemma_within_trans(mount, p, toplevel);
    }
    if within(p, mount) {
        lemma_within_comparable(p, mount, toplevel);
    }
}

/// On a plain layout with room for it, a snapshot can be taken.
pub proof fn law_plain_layout_is_ready(
    st: FsState,
    c: ConfigView,
    toplevel: PathView,
    strain: Seq<char>,
    id: Seq<char>,
)
    requires
        is_plain(c, strain),
        plain_names(c, strain, id),
        room_for(st, c, toplevel, strain, id),
    ensures
        ready(st, c, toplevel, strain, id),
{
    let s = lookup(c.strain, strain)->0;
    let subs = s.subvolumes;
    lemma_join_component(toplevel, c.sys.snapshot_subvol);
    lemma_join_component(toplevel, c.sys.staging_subvol);
    let dir = toplevel.push(c.sys.snapshot_subvol);
    assert(dir == snap_dir_of(c, toplevel));
    assert forall|i: int| 0 <= i < subs.len() implies part_path(
        c,
        toplevel,
        strain,
        id,
        #[trigger] subs[i],
    ) == dir.push(name_text(subs[i], strain, id)) && path_join(toplevel, subs[i])
        == toplevel.push(subs[i]) by {
        assert(is_component(name_text(subs[i], strain, id)));
        lemma_join_component(dir, name_text(subs[i], strain, id));
        lemma_join_component(toplevel, subs[i]);
    }
    assert forall|i: int, j: int|
        0 <= i < subs.len() && 0 <= j < subs.len() && i != j implies !within(
        part_path(c, toplevel, strain, id, #[trigger] subs[i]),
        part_path(c, toplevel, strain, id, #[trigger] subs[j]),
    ) by {
        lemma_names_apart(subs[i], subs[j], strain, id);
        lemma_siblings(dir, name_text(subs[i], strain, id), name_text(subs[j], strain, id));
    }
    assert forall|i: int| 0 <= i < subs.len() implies !within(
        dir,
        part_path(c, toplevel, strain, id, #[trigger] subs[i]),
    ) by {}
    assert(all_clear(st, c, toplevel, strain, id, subs, 0));
    if s.efi && c.sys.efi_enabled {
        let stage_name = name_text(c.sys.staging_subvol, strain, id);
        let tmp_name = stage_name + "-rw-tmp"@;
        let mount = path_of(c.sys.efi_mount);
        lemma_join_component(dir, stage_name);
        lemma_join_component(toplevel, tmp_name);
        let staging = toplevel.push(c.sys.staging_subvol);
        let tmp = toplevel.push(tmp_name);
        let dest = dir.push(stage_name);
        assert(tmp == temp_path(c, toplevel, strain, id));
        assert(dest == part_path(c, toplevel, strain, id, c.sys.staging_subvol));
        assert(staging.take(toplevel.len() as int) =~= toplevel);
        assert(tmp.take(toplevel.len() as int) =~= toplevel);
        lemma_outside_toplevel(mount, toplevel, staging);
        lemma_outside_toplevel(mount, toplevel, tmp);
        lemma_siblings(toplevel, c.sys.staging_subvol, tmp_name);
        lemma_cousins(toplevel, c.sys.staging_subvol, c.sys.snapshot_subvol, stage_name);
        lemma_cousins(toplevel, tmp_name, c.sys.snapshot_subvol, stage_name);
        lemma_siblings(toplevel, c.sys.snapshot_subvol, c.sys.staging_subvol);
        lemma_siblings(toplevel, c.sys.snapshot_subvol, tmp_name);
        assert(efi_clear(st, c, toplevel, strain, id));
        assert forall|i: int| 0 <= i < subs.len() implies ({
            let p = part_path(c, toplevel, strain, id, #[trigger] subs[i]);
            apart(p, staging) && apart(p, tmp) && apart(p, dest)
        }) by {
            let name = name_text(subs[i], strain, id);
            lemma_cousins(toplevel, c.sys.staging_subvol, c.sys.snapshot_subvol, name);
            lemma_cousins(toplevel, tmp_name, c.sys.snapshot_subvol, name);
            assert(subs[i] != c.sys.staging_subvol) by {
                assert(subs.contains(subs[i]));
            }
            lemma_names_apart(subs[i], c.sys.staging_subvol, strain, id);
            lemma_siblings(dir, name, stage_name);
        }
    }
}

/// On a plain layout with the EFI partition mounted elsewhere, the EFI part of
/// a snapshot mirrors the partition.
pub proof fn law_plain_layout_separates_efi(
    c: ConfigView,
    toplevel: PathView,
    strain: Seq<char>,
    id: Seq<char>,
)
    requires
        is_plain(c, strain),
        plain_names(c, strain, id),
        apart(path_of(c.sys.efi_mount), toplevel),
    ensures
        efi_separate(c, toplevel, strain, id),
{
    let subs = lookup(c.strain, strain)->0.subvolumes;
    let mount = path_of(c.sys.efi_mount);
    let tmp_name = name_text(c.sys.staging_subvol, strain, id) + "-rw-tmp"@;
    lemma_join_component(toplevel, c.sys.snapshot_subvol);
    lemma_join_component(toplevel, c.sys.staging_subvol);
    lemma_join_component(toplevel, tmp_name);
    let dir = toplevel.push(c.sys.snapshot_subvol);
    let staging = toplevel.push(c.sys.staging_subvol);
    let tmp = toplevel.push(tmp_name);
    assert(staging.take(toplevel.len() as int) =~= toplevel);
    assert(tmp.take(toplevel.len() as int) =~= toplevel);
    lemma_outside_toplevel(mount, toplevel, staging);
    lemma_outside_toplevel(mount, toplevel, tmp);
    assert forall|i: int| 0 <= i < subs.len() implies ({
        let p = part_path(c, toplevel, strain, id, #[trigger] subs[i]);
        apart(mount, p) && apart(staging, p)
    }) by {
        let name = name_text(subs[i], strain, id);
        assert(is_component(name));
        lemma_join_component(dir, name);
        let p = dir.push(name);
        assert(p.take(toplevel.len() as int) =~= toplevel);
        lemma_outside_toplevel(mount, toplevel, p);
        lemma_cousins(toplevel, c.sys.staging_subvol, c.sys.snapshot_subvol, name);
    }
}

/// Whether the names that a restore takes for its DELETE markers are plain and
/// none is the snapshot directory's.
pub open spec fn plain_markers(c: ConfigView, strain: Seq<char>, ts: Seq<char>) -> bool {
    forall|i: int|
        0 <= i < lookup(c.strain, strain)->0.subvolumes.len() ==> {
            let name = marker_name(
                #[trigger] lookup(c.strain, strain)->0.subvolumes[i],
                ts,
            );
            is_component(name) && name != c.sys.snapshot_subvol
        }
}

/// Whether what a restore needs is there, and nothing is in the way of its
/// markers.
pub open spec fn restorable(st: FsState, c: ConfigView, toplevel: PathView, s: InfoView, ts: Seq<
    char,
>) -> bool {
    let subs = lookup(c.strain, s.strain)->0.subvolumes;
    let dir = toplevel.push(c.sys.snapshot_subvol);
    forall|i: int|
        0 <= i < subs.len() ==> {
            &&& st.subvols.contains_key(toplevel.push(#[trigger] subs[i]))
            &&& st.subvols.contains_key(dir.push(name_text(subs[i], s.strain, s.id)))
            &&& vacant(st, toplevel.push(marker_name(subs[i], ts)))
        }
}

proof fn lemma_possible(job: RestoreJob, st: FsState)
    requires
        job.sane(),
        forall|i: int|
            0 <= i < job.subs.len() ==> st.subvols.contains_key(#[trigger] job.live(i))
                && st.subvols.contains_key(job.snap(i)) && can_rename(
                st,
                job.live(i),
                job.marker(i),
            ) && is_beside(job.live(i), job.marker(i)),
        forall|i: int, j: int|
            0 <= i < job.subs.len() && 0 <= j < job.subs.len() && i != j ==> !within(
                #[trigger] job.marker(i),
                #[trigger] job.marker(j),
            ),
    ensures
        job.possible(st),
{
    assert forall|i: int| 0 <= i < job.subs.len() implies st.subvols.contains_key(
        #[trigger] job.live(i),
    ) && st.subvols.contains_key(job.snap(i)) && can_rename(
        st,
        job.live(i),
        job.marker(i),
    ) && is_beside(job.live(i), job.marker(i)) by {
        assert(st.subvols.contains_key(job.live(i)));
        assert(st.subvols.contains_key(job.snap(i)));
        assert(can_rename(st, job.live(i), job.marker(i)));
    }
    assert forall|i: int, j: int|
        0 <= i < job.subs.len() && 0 <= j < job.subs.len() && i != j implies !within(
        #[trigger] job.marker(i),
        #[trigger] job.marker(j),
    ) by {}
}

/// On a plain layout a restore is sane, and where what it needs is there, it is
/// possible.
pub proof fn law_plain_layout_is_restorable(
    st: FsState,
    c: ConfigView,
    toplevel: PathView,
    s: InfoView,
    ts: Seq<char>,
)
    requires
        is_plain(c, s.strain),
        plain_parts(lookup(c.strain, s.strain)->0.subvolumes, s.strain, s.id),
        plain_markers(c, s.strain, ts),
    ensures
        job_of(c, toplevel, s, ts).sane(),
        restorable(st, c, toplevel, s, ts) ==> job_of(c, toplevel, s, ts).possible(st),
{
    let job = job_of(c, toplevel, s, ts);
    let subs = job.subs;
    let dir = toplevel.push(c.sys.snapshot_subvol);
    reveal_strlit("-");
    assert("-"@.len() == 1);
    lemma_join_component(toplevel, c.sys.snapshot_subvol);
    assert forall|i: int| 0 <= i < subs.len() implies {
        &&& #[trigger] job.live(i) == toplevel.push(subs[i])
        &&& job.marker(i) == toplevel.push(marker_name(subs[i], ts))
        &&& job.snap(i) == dir.push(name_text(subs[i], s.strain, s.id))
        &&& all_apart(job.live(i), job.marker(i), job.snap(i))
    } by {
        let name = marker_name(subs[i], ts);
        let part = name_text(subs[i], s.strain, s.id);
        assert(is_component(lookup(c.strain, s.strain)->0.subvolumes[i]));
        assert(is_component(name));
        assert(is_component(part));
        lemma_join_component(toplevel, subs[i]);
        lemma_join_component(toplevel, name);
        lemma_join_component(dir, part);
        assert(name.len() > subs[i].len());
        lemma_siblings(toplevel, subs[i], name);
        assert(subs[i] != c.sys.snapshot_subvol) by {
            assert(subs.contains(subs[i]));
        }
        lemma_cousins(toplevel, subs[i], c.sys.snapshot_subvol, part);
        lemma_cousins(toplevel, name, c.sys.snapshot_subvol, part);
    }
    if restorable(st, c, toplevel, s, ts) {
        assert forall|i: int| 0 <= i < job.subs.len() implies st.subvols.contains_key(
            #[trigger] job.live(i),
        ) && st.subvols.contains_key(job.snap(i)) && can_rename(
            st,
            job.live(i),
            job.marker(i),
        ) && is_beside(job.live(i), job.marker(i)) by {
            let _ = lookup(c.strain, s.strain)->0.subvolumes[i];
            assert(all_apart(job.live(i), job.marker(i), job.snap(i)));
            assert(st.subvols.contains_key(toplevel.push(subs[i])));
            assert(job.marker(i).drop_last() =~= toplevel);
            assert(job.live(i).take(toplevel.len() as int) =~= toplevel);
        }
        assert forall|i: int, j: int|
            0 <= i < job.subs.len() && 0 <= j < job.subs.len() && i != j implies !within(
            #[trigger] job.marker(i),
            #[trigger] job.marker(j),
        ) by {
            let x = marker_name(subs[i], ts);
            let y = marker_name(subs[j], ts);
            let _ = job.live(i);
            let _ = job.live(j);
            if x == y {
                let k = "-"@.len() + crate::config::DELETE_STRAIN@.len() + "-"@.len() + ts.len();
                assert(x.len() == subs[i].len() + k);
                assert(y.len() == subs[j].len() + k);
                assert(x.take(subs[i].len() as int) =~= subs[i]);
                assert(y.take(subs[j].len() as int) =~= subs[j]);
            }
            lemma_siblings(toplevel, x, y);
        }
        assert(job.sane());
        lemma_possible(job, st);
    }
}

proof fn lemma_beside_marker(toplevel: PathView, marker: Seq<char>, other: Seq<char>, p: PathView)
    requires
        marker != other,
        within(p, toplevel.push(other)),
    ensures
        !within(p, toplevel.push(marker)),
{
    lemma_siblings(toplevel, marker, other);
    if within(p, toplevel.push(marker)) {
        lemma_within_comparable(p, toplevel.push(marker), toplevel.push(other));
    }
}

/// What a snapshot adds lies in the snapshot directory or is the staging
/// subvolume.
proof fn lemma_new_place(
    a: FsState,
    mid: FsState,
    c: ConfigView,
    toplevel: PathView,
    strain: Seq<char>,
    id: Seq<char>,
    q: PathView,
) -> (other: Seq<char>)
    requires
        is_plain(c, strain),
        plain_names(c, strain, id),
        taken(a, mid, c, toplevel, strain, id),
        mid.subvols.contains_key(q),
        !a.subvols.contains_key(q),
    ensures
        other == c.sys.snapshot_subvol || other == c.sys.staging_subvol,
        within(q, toplevel.push(other)),
{
    let subs = lookup(c.strain, strain)->0.subvolumes;
    let parts = strain_parts(c, lookup(c.strain, strain)->0);
    let dir = toplevel.push(c.sys.snapshot_subvol);
    let staging = toplevel.push(c.sys.staging_subvol);
    lemma_join_component(toplevel, c.sys.snapshot_subvol);
    lemma_join_component(toplevel, c.sys.staging_subvol);
    lemma_within_self(q, q);
    if q == dir {
        c.sys.snapshot_subvol
    } else if q == staging {
        c.sys.staging_subvol
    } else {
        assert(is_part_path(c, toplevel, strain, id, parts, parts.len() as int, q));
        let k = choose|k: int|
            0 <= k < parts.len() && q == part_path(c, toplevel, strain, id, #[trigger] parts[k]);
        let part = name_text(parts[k], strain, id);
        if k < subs.len() {
            assert(parts[k] == subs[k]);
        }
        assert(is_component(part));
        lemma_join_component(dir, part);
        assert(q.take(dir.len() as int) =~= dir);
        c.sys.snapshot_subvol
    }
}

/// Saving the current state does not stand in the way of a restore: on a plain
/// layout, what can be restored before a snapshot of the strain is taken can be
/// restored after it.
pub proof fn law_saving_keeps_restorable(
    a: FsState,
    mid: FsState,
    b: FsState,
    c: ConfigView,
    toplevel: PathView,
    s: InfoView,
    id: Seq<char>,
    meta: Option<MetaView>,
    ts: Seq<char>,
)
    requires
        is_plain(c, s.strain),
        plain_names(c, s.strain, id),
        is_component(sidecar_name(s.strain, id)),
        plain_markers(c, s.strain, ts),
        taken(a, mid, c, toplevel, s.strain, id),
        recorded(mid, b, sidecar_at(snap_dir_of(c, toplevel), s.strain, id), meta),
        restorable(a, c, toplevel, s, ts),
        forall|i: int|
            0 <= i < lookup(c.strain, s.strain)->0.subvolumes.len() ==> marker_name(
                #[trigger] lookup(c.strain, s.strain)->0.subvolumes[i],
                ts,
            ) != c.sys.staging_subvol,
    ensures
        restorable(b, c, toplevel, s, ts),
{
    let subs = lookup(c.strain, s.strain)->0.subvolumes;
    let dir = toplevel.push(c.sys.snapshot_subvol);
    lemma_join_component(toplevel, c.sys.snapshot_subvol);
    lemma_join_component(dir, sidecar_name(s.strain, id));
    let sidecar = dir.push(sidecar_name(s.strain, id));
    assert(sidecar.take(dir.len() as int) =~= dir);
    assert forall|i: int| 0 <= i < subs.len() implies {
        &&& b.subvols.contains_key(toplevel.push(#[trigger] subs[i]))
        &&& b.subvols.contains_key(dir.push(name_text(subs[i], s.strain, s.id)))
        &&& vacant(b, toplevel.push(marker_name(subs[i], ts)))
    } by {
        assert(a.subvols.contains_key(toplevel.push(subs[i])));
        assert(a.subvols.contains_key(dir.push(name_text(subs[i], s.strain, s.id))));
        let name = marker_name(subs[i], ts);
        let marker = toplevel.push(name);
        assert(vacant(a, marker));
        assert forall|q: PathView| #[trigger] mid.subvols.contains_key(q) implies !within(
            q,
            marker,
        ) by {
            if !a.subvols.contains_key(q) {
                let other = lemma_new_place(a, mid, c, toplevel, s.strain, id, q);
                lemma_beside_marker(toplevel, name, other, q);
            }
        }
        assert forall|p: PathView| #[trigger] b.files.contains_key(p) implies !within(
            p,
            marker,
        ) by {
            if p == sidecar {
                lemma_beside_marker(toplevel, name, c.sys.snapshot_subvol, p);
            } else if !a.files.contains_key(p) {
                assert(mid.files.contains_key(p));
                let n = choose|n: PathView|
                    mid.subvols.contains_key(n) && !a.subvols.contains_key(n)
                        && #[trigger] within(p, n);
                let other = lemma_new_place(a, mid, c, toplevel, s.strain, id, n);
                lemma_within_trans(p, n, toplevel.push(other));
                lemma_beside_marker(toplevel, name, other, p);
            }
        }
    }
}

} // verus!
