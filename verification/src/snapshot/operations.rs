//! Creating, editing and deleting snapshots.

use vstd::prelude::*;
use vstd::string::*;

use crate::assoc::lookup;
use crate::backend::effects::{
    grown, is_copy, lemma_failed_snapshot_grows, lemma_grown_copy, lemma_grown_refl,
    lemma_grown_sync, lemma_grown_trans, lemma_grown_without, lemma_pruned_absent,
    lemma_pruned_file, lemma_pruned_kept, lemma_pruned_more, lemma_pruned_refl,
    lemma_pruned_same_tree, lemma_pruned_trans, lemma_pruned_weaken, lemma_pruned_without,
    lemma_snapshot_grows, lemma_subvolume_grows, pruned,
};
use crate::backend::{
    can_delete, can_snapshot, childless, is_directory, is_synced, lemma_has_parent,
    lemma_present_has_parent, looks_same, owned, removable, subvol_exists, vacant, with_snapshot,
    with_subvolume, without, FileSystemBackend, FsState,
};
use crate::clock::{local_now, WallTime};
use crate::config::{Config, ConfigView, StrainConfig};
use crate::document::{all_quotes_fit, toml_text};
use crate::error::{ErrorView, Result, RevenantError};
use crate::metadata::{
    self, encode_meta, is_protected, sidecar_at, sidecar_in, sidecar_name, storable, MetaView,
    SnapshotMetadata, TriggerKind, SCHEMA_VERSION,
};
use crate::path::{
    is_component, lemma_moved_back, lemma_within_self, moved, path_join, under, within, FsPath,
    PathView,
};
use crate::snapshot::discovery::{discover_snapshots, discovered, may_discover, strain_parts};
use crate::snapshot::id::{is_clock_id, name_text, SnapshotId};
use crate::snapshot::info::{
    ensure_snapshot_dir, infos, sidecar_path_for_snapshot, snap_dir_of, snapshot_dir, with_dir,
    InfoView, SnapshotInfo,
};
use crate::text::{cat2, cat5, clone_texts, lemma_views_push, same_text, views};

verus! {

/// Where the snapshot of a part is made.
pub open spec fn part_path(
    c: ConfigView,
    toplevel: PathView,
    strain: Seq<char>,
    id: Seq<char>,
    part: Seq<char>,
) -> PathView {
    path_join(snap_dir_of(c, toplevel), name_text(part, strain, id))
}

/// Whether `p` is where the snapshot of one of the first `n` parts is made.
pub open spec fn is_part_path(
    c: ConfigView,
    toplevel: PathView,
    strain: Seq<char>,
    id: Seq<char>,
    parts: Seq<Seq<char>>,
    n: int,
    p: PathView,
) -> bool {
    exists|i: int|
        0 <= i < n && p == part_path(c, toplevel, strain, id, #[trigger] parts[i])
}

/// Whether the EFI partition and the staging subvolume lie apart from each
/// other and from what a snapshot makes.
pub open spec fn efi_separate(
    c: ConfigView,
    toplevel: PathView,
    strain: Seq<char>,
    id: Seq<char>,
) -> bool {
    let mount = crate::path::path_of(c.sys.efi_mount);
    let staging = path_join(toplevel, c.sys.staging_subvol);
    let subs = lookup(c.strain, strain)->0.subvolumes;
    &&& apart(mount, staging)
    &&& apart(mount, temp_path(c, toplevel, strain, id))
    &&& forall|i: int|
        0 <= i < subs.len() ==> {
            let p = part_path(c, toplevel, strain, id, #[trigger] subs[i]);
            apart(mount, p) && apart(staging, p)
        }
}

/// Whether a snapshot makes the staging subvolume, which is not there yet, at
/// a place of its own.
pub open spec fn staged_anew(
    a: FsState,
    c: ConfigView,
    toplevel: PathView,
    strain: Seq<char>,
    id: Seq<char>,
) -> bool {
    let staging = path_join(toplevel, c.sys.staging_subvol);
    &&& !a.subvols.contains_key(staging)
    &&& staging != snap_dir_of(c, toplevel)
    &&& apart(staging, temp_path(c, toplevel, strain, id))
    &&& apart(staging, part_path(c, toplevel, strain, id, c.sys.staging_subvol))
}

/// Whether `b` is `a` after snapshot `id` of a strain was taken: nothing is
/// lost, every subvolume of the strain has a read-only copy in the snapshot
/// directory, the EFI staging subvolume too where EFI is synced, and no other
/// subvolume is new but the snapshot directory and the staging subvolume. The
/// copy of the staging subvolume mirrors the EFI partition, and so does a
/// staging subvolume that was not there before.
pub open spec fn taken(
    a: FsState,
    b: FsState,
    c: ConfigView,
    toplevel: PathView,
    strain: Seq<char>,
    id: Seq<char>,
) -> bool {
    let s = lookup(c.strain, strain)->0;
    let parts = strain_parts(c, s);
    let staging = path_join(toplevel, c.sys.staging_subvol);
    let efi = s.efi && c.sys.efi_enabled;
    &&& lookup(c.strain, strain) is Some
    &&& grown(a, b)
    &&& b.subvols.contains_key(snap_dir_of(c, toplevel))
    &&& forall|i: int|
        0 <= i < s.subvolumes.len() ==> is_copy(
            b,
            path_join(toplevel, #[trigger] s.subvolumes[i]),
            part_path(c, toplevel, strain, id, s.subvolumes[i]),
            true,
        )
    &&& efi ==> {
        let p = part_path(c, toplevel, strain, id, c.sys.staging_subvol);
        &&& b.subvols.contains_key(staging)
        &&& b.subvols.contains_key(p)
        &&& b.subvols[p].readonly
        &&& efi_separate(c, toplevel, strain, id) ==> mirrors(
            a,
            b,
            crate::path::path_of(c.sys.efi_mount),
            staging,
            p,
        )
        &&& efi_separate(c, toplevel, strain, id) && staged_anew(a, c, toplevel, strain, id)
            ==> mirrors(a, b, crate::path::path_of(c.sys.efi_mount), staging, staging)
    }
    &&& forall|p: PathView| #[trigger]
        b.subvols.contains_key(p) ==> a.subvols.contains_key(p) || p == snap_dir_of(c, toplevel)
            || (efi && p == staging) || is_part_path(
            c,
            toplevel,
            strain,
            id,
            parts,
            parts.len() as int,
            p,
        )
}

/// Whether `b` is `a` with a record in the sidecar at `path`, or `a` itself
/// where there is no record.
pub open spec fn recorded(a: FsState, b: FsState, path: PathView, m: Option<MetaView>) -> bool {
    match m {
        Some(v) => {
            &&& all_quotes_fit(v.message)
            &&& toml_text(encode_meta(v)) is Ok
            &&& b == (FsState {
                files: a.files.insert(path, toml_text(encode_meta(v))->Ok_0),
                ..a
            })
            &&& storable(v) ==> sidecar_in(b, path) == Some(v)
        },
        None => b == a,
    }
}

/// The record of a new snapshot.
pub open spec fn new_record(
    created_at: WallTime,
    trigger: TriggerKind,
    message: Seq<Seq<char>>,
) -> MetaView {
    MetaView { schema_version: SCHEMA_VERSION, created_at, trigger, message, protected: false }
}

/// Whether a snapshot of `src` at `dst` can be made now and stays possible
/// while others of the list are made.
pub open spec fn all_clear(
    st: FsState,
    c: ConfigView,
    toplevel: PathView,
    strain: Seq<char>,
    id: Seq<char>,
    subs: Seq<Seq<char>>,
    from: int,
) -> bool {
    &&& forall|i: int|
        from <= i < subs.len() ==> can_snapshot(
            st,
            path_join(toplevel, #[trigger] subs[i]),
            part_path(c, toplevel, strain, id, subs[i]),
        )
    &&& forall|i: int, j: int|
        0 <= i < subs.len() && 0 <= j < subs.len() && i != j ==> !within(
            part_path(c, toplevel, strain, id, #[trigger] subs[i]),
            part_path(c, toplevel, strain, id, #[trigger] subs[j]),
        )
}

/// Makes the snapshots of a strain's subvolumes.
fn snapshot_subvolumes<B: FileSystemBackend>(
    config: &Config,
    backend: &mut B,
    toplevel: &FsPath,
    strain: &str,
    s: &StrainConfig,
    dir: &FsPath,
    id: &SnapshotId,
) -> (r: Result<()>)
    requires
        dir@ == snap_dir_of(config@, toplevel@),
    ensures
        final(backend).reliable() == old(backend).reliable(),
        grown(old(backend).state(), final(backend).state()),
        r is Ok ==> forall|i: int|
            0 <= i < s@.subvolumes.len() ==> is_copy(
                final(backend).state(),
                path_join(toplevel@, #[trigger] s@.subvolumes[i]),
                part_path(config@, toplevel@, strain@, id@, s@.subvolumes[i]),
                true,
            ),
        forall|p: PathView| #[trigger]
            final(backend).state().subvols.contains_key(p) ==> old(
                backend).state().subvols.contains_key(p) || is_part_path(
                config@,
                toplevel@,
                strain@,
                id@,
                s@.subvolumes,
                s@.subvolumes.len() as int,
                p,
            ),
        old(backend).reliable() && all_clear(
            old(backend).state(),
            config@,
            toplevel@,
            strain@,
            id@,
            s@.subvolumes,
            0,
        ) ==> r is Ok,
{
    let ghost a = backend.state();
    let ghost subs = s@.subvolumes;
    let mut i: usize = 0;
    proof {
        lemma_grown_refl(a);
    }
    while i < s.subvolumes.len()
        invariant
            i <= s.subvolumes.len(),
            subs == views(s.subvolumes@),
            subs == s@.subvolumes,
            dir@ == snap_dir_of(config@, toplevel@),
            backend.reliable() == old(backend).reliable(),
            a == old(backend).state(),
            grown(a, backend.state()),
            forall|j: int|
                0 <= j < i ==> is_copy(
                    backend.state(),
                    path_join(toplevel@, #[trigger] subs[j]),
                    part_path(config@, toplevel@, strain@, id@, subs[j]),
                    true,
                ),
            forall|p: PathView| #[trigger]
                backend.state().subvols.contains_key(p) ==> a.subvols.contains_key(p)
                    || is_part_path(config@, toplevel@, strain@, id@, subs, i as int, p),
            all_clear(a, config@, toplevel@, strain@, id@, subs, 0) ==> all_clear(
                backend.state(),
                config@,
                toplevel@,
                strain@,
                id@,
                subs,
                i as int,
            ),
        decreases s.subvolumes.len() - i,
    {
        let subvol = s.subvolumes[i].as_str();
        let src = toplevel.join(subvol);
        let dest = dir.join(id.snapshot_name(subvol, strain).as_str());
        let ghost before = backend.state();
        proof {
            assert(subs[i as int] == subvol@);
            assert forall|p: PathView|
                is_part_path(
                    config@,
                    toplevel@,
                    strain@,
                    id@,
                    subs,
                    i as int,
                    p,
                ) implies #[trigger] is_part_path(
                config@,
                toplevel@,
                strain@,
                id@,
                subs,
                i + 1,
                p,
            ) && is_part_path(
                config@,
                toplevel@,
                strain@,
                id@,
                subs,
                subs.len() as int,
                p,
            ) by {
                let j = choose|j: int|
                    0 <= j < i && p == part_path(config@, toplevel@, strain@, id@, #[trigger] subs[j]);
                assert(p == part_path(config@, toplevel@, strain@, id@, subs[j]));
            }
        }
        match backend.create_readonly_snapshot(&src, &dest) {
            Ok(info) => {
                proof {
                    lemma_snapshot_grows(before, src@, dest@, info.uuid, true);
                    let now = backend.state();
                    lemma_grown_trans(a, before, now);
                    if all_clear(before, config@, toplevel@, strain@, id@, subs, i as int) {
                        assert forall|j: int| i + 1 <= j < subs.len() implies can_snapshot(
                            now,
                            path_join(toplevel@, #[trigger] subs[j]),
                            part_path(config@, toplevel@, strain@, id@, subs[j]),
                        ) by {
                            assert(can_snapshot(
                                before,
                                path_join(toplevel@, subs[j]),
                                part_path(config@, toplevel@, strain@, id@, subs[j]),
                            ));
                            lemma_stays_vacant(
                                before,
                                now,
                                dest@,
                                part_path(config@, toplevel@, strain@, id@, subs[j]),
                            );
                        }
                    }
                    assert forall|j: int| 0 <= j < i + 1 implies is_copy(
                        now,
                        path_join(toplevel@, #[trigger] subs[j]),
                        part_path(config@, toplevel@, strain@, id@, subs[j]),
                        true,
                    ) by {
                        if j < i {
                            lemma_grown_copy(
                                before,
                                now,
                                path_join(toplevel@, subs[j]),
                                part_path(config@, toplevel@, strain@, id@, subs[j]),
                                true,
                            );
                        }
                    }
                    assert forall|p: PathView| #[trigger]
                        now.subvols.contains_key(p) implies a.subvols.contains_key(p)
                        || is_part_path(config@, toplevel@, strain@, id@, subs, i + 1, p) by {
                        if p == dest@ {
                            assert(p == part_path(
                                config@,
                                toplevel@,
                                strain@,
                                id@,
                                subs[i as int],
                            ));
                        } else {
                            assert(before.subvols.contains_key(p));
                            if !a.subvols.contains_key(p) {
                                assert(is_part_path(
                                    config@,
                                    toplevel@,
                                    strain@,
                                    id@,
                                    subs,
                                    i as int,
                                    p,
                                ));
                                assert(is_part_path(
                                    config@,
                                    toplevel@,
                                    strain@,
                                    id@,
                                    subs,
                                    i + 1,
                                    p,
                                ));
                            }
                        }
                    }
                }
            },
            Err(e) => {
                proof {
                    lemma_failed_snapshot_grows(
                        before,
                        backend.state(),
                        src@,
                        dest@,
                        true,
                    );
                    lemma_grown_trans(a, before, backend.state());
                    assert forall|p: PathView| #[trigger]
                        backend.state().subvols.contains_key(p) implies a.subvols.contains_key(p)
                        || is_part_path(
                        config@,
                        toplevel@,
                        strain@,
                        id@,
                        subs,
                        subs.len() as int,
                        p,
                    ) by {
                        if p == dest@ {
                            assert(p == part_path(
                                config@,
                                toplevel@,
                                strain@,
                                id@,
                                subs[i as int],
                            ));
                        } else if !a.subvols.contains_key(p) {
                            assert(is_part_path(
                                config@,
                                toplevel@,
                                strain@,
                                id@,
                                subs,
                                i as int,
                                p,
                            ));
                            assert(is_part_path(
                                config@,
                                toplevel@,
                                strain@,
                                id@,
                                subs,
                                i + 1,
                                p,
                            ));
                        }
                    }
                }
                return Err(e);
            },
        }
        i = i + 1;
    }
    Ok(())
}

/// A place stays vacant while a subvolume is made that neither holds it nor
/// lies in it.
proof fn lemma_stays_vacant(a: FsState, b: FsState, made: PathView, p: PathView)
    requires
        vacant(a, p),
        !within(made, p),
        !within(p, made),
        forall|q: PathView| #[trigger]
            b.subvols.contains_key(q) ==> a.subvols.contains_key(q) || q == made,
        forall|q: PathView| #[trigger]
            b.files.contains_key(q) ==> a.files.contains_key(q) || under(q, made),
    ensures
        vacant(b, p),
{
    assert forall|q: PathView| #[trigger] b.files.contains_key(q) implies !within(q, p) by {
        if !a.files.contains_key(q) && within(q, p) {
            lemma_within_self(q, made);
            crate::path::lemma_within_comparable(q, made, p);
        }
    }
}

/// Where EFI content is synced before it becomes part of a snapshot.
pub open spec fn temp_path(
    c: ConfigView,
    toplevel: PathView,
    strain: Seq<char>,
    id: Seq<char>,
) -> PathView {
    path_join(toplevel, name_text(c.sys.staging_subvol, strain, id) + "-rw-tmp"@)
}

/// Whether neither path holds the other.
pub open spec fn apart(p: PathView, q: PathView) -> bool {
    !within(p, q) && !within(q, p)
}

/// Whether EFI content can be synced and snapshotted: the staging subvolume
/// exists or can be made, the temporary copy and the snapshot have free
/// places, and none of the trees involved overlaps another.
pub open spec fn efi_clear(
    st: FsState,
    c: ConfigView,
    toplevel: PathView,
    strain: Seq<char>,
    id: Seq<char>,
) -> bool {
    let mount = crate::path::path_of(c.sys.efi_mount);
    let staging = path_join(toplevel, c.sys.staging_subvol);
    let tmp = temp_path(c, toplevel, strain, id);
    let dest = part_path(c, toplevel, strain, id, c.sys.staging_subvol);
    &&& st.subvols.contains_key(staging) || vacant(st, staging)
    &&& vacant(st, tmp)
    &&& vacant(st, dest)
    &&& apart(mount, staging)
    &&& apart(mount, tmp)
    &&& apart(staging, tmp)
    &&& apart(staging, dest)
    &&& apart(tmp, dest)
}

/// Whether the files under `p` in `b` mirror those under `mount` in `a`: the
/// same names, and the same content, unless the file in the staging subvolume
/// is as long and the content is that one's.
pub open spec fn mirrors(
    a: FsState,
    b: FsState,
    mount: PathView,
    staging: PathView,
    p: PathView,
) -> bool {
    &&& forall|x: PathView|
        under(x, p) ==> (#[trigger] b.files.contains_key(x) == a.files.contains_key(
            moved(x, p, mount),
        ))
    &&& forall|x: PathView|
        under(x, p) && b.files.contains_key(x) ==> #[trigger] b.files[x] == a.files[moved(
            x,
            p,
            mount,
        )] || (a.files.contains_key(moved(x, p, staging)) && b.files[x] == a.files[moved(
            x,
            p,
            staging,
        )] && looks_same(b.files[x], a.files[moved(x, p, mount)]))
}

proof fn lemma_moved_through(x: PathView, p: PathView, q: PathView, r: PathView)
    requires
        within(x, p),
    ensures
        moved(moved(x, p, q), q, r) == moved(x, p, r),
{
    let y = moved(x, p, q);
    assert(y.skip(q.len() as int) =~= x.skip(p.len() as int));
}

proof fn lemma_apart_inside(x: PathView, p: PathView, q: PathView)
    requires
        apart(p, q),
        within(x, p),
    ensures
        !within(x, q),
        !under(x, q),
{
    lemma_within_self(x, q);
    if within(x, q) {
        crate::path::lemma_within_comparable(x, p, q);
    }
}

/// The EFI part of a snapshot mirrors the EFI partition.
proof fn lemma_mirrored(
    a: FsState,
    fresh: bool,
    s1: FsState,
    s2: FsState,
    s3: FsState,
    s4: FsState,
    s5: FsState,
    mount: PathView,
    staging: PathView,
    tmp: PathView,
    dest: PathView,
    u2: u128,
    u4: u128,
)
    requires
        apart(mount, staging),
        apart(mount, tmp),
        fresh ==> vacant(a, staging) && exists|b: FsState|
            b.files == a.files && #[trigger] is_synced(b, s1, mount, staging),
        !fresh ==> s1 == a,
        vacant(s1, tmp),
        s2 == with_snapshot(s1, staging, tmp, u2, false),
        is_synced(s2, s3, mount, tmp),
        vacant(s3, dest),
        s4 == with_snapshot(s3, tmp, dest, u4, true),
        s3.subvols.contains_key(tmp),
        childless(s4, tmp),
        s5 == without(s4, tmp),
    ensures
        mirrors(a, s5, mount, staging, dest),
{
    lemma_within_self(tmp, dest);
    lemma_within_self(dest, tmp);
    assert(!within(tmp, dest));
    assert(s4.subvols.contains_key(dest));
    assert(dest != tmp) by {
        assert(tmp.take(tmp.len() as int) =~= tmp);
    }
    assert(apart(dest, tmp));
    assert forall|x: PathView| under(x, dest) implies (#[trigger] s5.files.contains_key(x)
        == a.files.contains_key(moved(x, dest, mount))) && (s5.files.contains_key(x)
        ==> s5.files[x] == a.files[moved(x, dest, mount)] || (a.files.contains_key(
        moved(x, dest, staging),
    ) && s5.files[x] == a.files[moved(x, dest, staging)] && looks_same(
        s5.files[x],
        a.files[moved(x, dest, mount)],
    ))) by {
        let y = moved(x, dest, tmp);
        let z = moved(x, dest, mount);
        let w = moved(x, dest, staging);
        lemma_within_self(x, dest);
        lemma_moved_back(x, dest, tmp);
        lemma_moved_back(x, dest, mount);
        lemma_moved_back(x, dest, staging);
        lemma_moved_through(x, dest, tmp, mount);
        lemma_moved_through(x, dest, tmp, staging);
        lemma_apart_inside(x, dest, tmp);
        lemma_within_self(z, mount);
        lemma_apart_inside(z, mount, tmp);
        lemma_apart_inside(z, mount, staging);
        lemma_within_self(y, tmp);
        assert(s5.files.contains_key(x) == s4.files.contains_key(x));
        assert(s4.files.contains_key(x) == owned(s3, tmp, y));
        assert(owned(s3, tmp, y) == s3.files.contains_key(y)) by {
            assert forall|q: PathView| #[trigger]
                s3.subvols.contains_key(q) && under(q, tmp) implies !within(y, q) by {
                assert(s2.subvols.contains_key(q));
                lemma_within_self(q, tmp);
                assert(s1.subvols.contains_key(q) || q == tmp);
            }
        }
        assert(s3.files.contains_key(y) == s2.files.contains_key(z));
        assert(s2.files.contains_key(z) == s1.files.contains_key(z));
        if fresh {
            let b = choose|b: FsState|
                b.files == a.files && #[trigger] is_synced(b, s1, mount, staging);
            assert(s1.files.contains_key(z) == b.files.contains_key(z));
            if b.files.contains_key(z) {
                assert(s1.files[z] == b.files[z]);
            }
            lemma_within_self(w, staging);
            assert(!a.files.contains_key(w));
            lemma_moved_through(x, dest, staging, mount);
            if s1.files.contains_key(w) {
                assert(s1.files[w] == b.files[moved(w, staging, mount)] || (b.files.contains_key(w)
                    && s1.files[w] == b.files[w]));
            }
        }
        if s5.files.contains_key(x) {
            assert(s5.files[x] == s4.files[x]);
            assert(s4.files[x] == s3.files[y]);
            assert(s3.files[y] == s2.files[moved(y, tmp, mount)] || (s2.files.contains_key(y)
                && s3.files[y] == s2.files[y] && looks_same(
                s2.files[y],
                s2.files[moved(y, tmp, mount)],
            )));
            assert(s2.files[z] == s1.files[z]);
            if s2.files.contains_key(y) {
                assert(owned(s1, staging, moved(y, tmp, staging)));
                assert(s2.files[y] == s1.files[w]);
            }
        }
    }
}

/// A staging subvolume made for the snapshot mirrors the EFI partition.
proof fn lemma_staged(
    a: FsState,
    b: FsState,
    s1: FsState,
    s2: FsState,
    s3: FsState,
    s4: FsState,
    s5: FsState,
    mount: PathView,
    staging: PathView,
    tmp: PathView,
    dest: PathView,
    u2: u128,
    u4: u128,
)
    requires
        apart(mount, staging),
        apart(staging, tmp),
        apart(staging, dest),
        vacant(a, staging),
        b.files == a.files,
        is_synced(b, s1, mount, staging),
        s2 == with_snapshot(s1, staging, tmp, u2, false),
        is_synced(s2, s3, mount, tmp),
        s4 == with_snapshot(s3, tmp, dest, u4, true),
        s5 == without(s4, tmp),
    ensures
        mirrors(a, s5, mount, staging, staging),
{
    assert forall|x: PathView| under(x, staging) implies (#[trigger] s5.files.contains_key(x)
        == a.files.contains_key(moved(x, staging, mount))) && (s5.files.contains_key(x)
        ==> s5.files[x] == a.files[moved(x, staging, mount)]) by {
        lemma_within_self(x, staging);
        lemma_apart_inside(x, staging, tmp);
        lemma_apart_inside(x, staging, dest);
        assert(s5.files.contains_key(x) == s4.files.contains_key(x));
        assert(s4.files.contains_key(x) == s3.files.contains_key(x));
        assert(s3.files.contains_key(x) == s2.files.contains_key(x));
        assert(s2.files.contains_key(x) == s1.files.contains_key(x));
        assert(!a.files.contains_key(x));
        if s1.files.contains_key(x) {
            assert(s3.files[x] == s2.files[x]);
            assert(s1.files[x] == b.files[moved(x, staging, mount)]);
        }
    }
}

/// Takes the EFI part of a snapshot: the staging subvolume is made if it does
/// not exist, a temporary copy of it is synced with the EFI partition, and
/// the snapshot is made from that copy.
fn snapshot_efi<B: FileSystemBackend>(
    config: &Config,
    backend: &mut B,
    toplevel: &FsPath,
    strain: &str,
    dir: &FsPath,
    id: &SnapshotId,
) -> (r: Result<()>)
    requires
        dir@ == snap_dir_of(config@, toplevel@),
    ensures
        final(backend).reliable() == old(backend).reliable(),
        grown(old(backend).state(), final(backend).state()),
        r is Ok ==> {
            let b = final(backend).state();
            let p = part_path(config@, toplevel@, strain@, id@, config@.sys.staging_subvol);
            &&& b.subvols.contains_key(path_join(toplevel@, config@.sys.staging_subvol))
            &&& b.subvols.contains_key(p)
            &&& b.subvols[p].readonly
            &&& forall|q: PathView| #[trigger]
                b.subvols.contains_key(q) ==> old(backend).state().subvols.contains_key(q) || q
                    == p || q == path_join(toplevel@, config@.sys.staging_subvol)
        },
        r is Ok && apart(
            crate::path::path_of(config@.sys.efi_mount),
            path_join(toplevel@, config@.sys.staging_subvol),
        ) && apart(
            crate::path::path_of(config@.sys.efi_mount),
            temp_path(config@, toplevel@, strain@, id@),
        ) ==> mirrors(
            old(backend).state(),
            final(backend).state(),
            crate::path::path_of(config@.sys.efi_mount),
            path_join(toplevel@, config@.sys.staging_subvol),
            part_path(config@, toplevel@, strain@, id@, config@.sys.staging_subvol),
        ),
        r is Ok && apart(
            crate::path::path_of(config@.sys.efi_mount),
            path_join(toplevel@, config@.sys.staging_subvol),
        ) && staged_anew(old(backend).state(), config@, toplevel@, strain@, id@) ==> mirrors(
            old(backend).state(),
            final(backend).state(),
            crate::path::path_of(config@.sys.efi_mount),
            path_join(toplevel@, config@.sys.staging_subvol),
            path_join(toplevel@, config@.sys.staging_subvol),
        ),
        old(backend).reliable() && efi_clear(
            old(backend).state(),
            config@,
            toplevel@,
            strain@,
            id@,
        ) ==> r is Ok,
{
    let ghost a = backend.state();
    let ghost mut fresh = false;
    let ghost mut made = a;
    let ghost mut u2: u128 = 0;
    let ghost mut u4: u128 = 0;
    let staging = config.sys.efi.staging_subvol.as_str();
    let staging_path = toplevel.join(staging);
    let mount = FsPath::new(config.sys.efi.mount_point.as_str());
    let name = id.snapshot_name(staging, strain);
    let tmp = toplevel.join(cat2(name.as_str(), "-rw-tmp").as_str());
    let dest = dir.join(name.as_str());
    let ghost clear = efi_clear(a, config@, toplevel@, strain@, id@);
    proof {
        lemma_grown_refl(a);
        assert(clear ==> vacant(a, tmp@) && vacant(a, dest@));
    }
    if !subvol_exists(backend, &staging_path) {
        match backend.create_subvolume(&staging_path) {
            Ok(_) => {},
            Err(e) => {
                return Err(e);
            },
        }
        let ghost b = backend.state();
        proof {
            let uuid = choose|uuid: u128| b == #[trigger] with_subvolume(a, staging_path@, uuid);
            lemma_subvolume_grows(a, staging_path@, uuid);
            lemma_within_self(staging_path@, staging_path@);
            if clear {
                lemma_stays_vacant(a, b, staging_path@, tmp@);
                lemma_stays_vacant(a, b, staging_path@, dest@);
            }
        }
        let synced = backend.sync_tree(&mount, &staging_path);
        proof {
            let c = backend.state();
            fresh = true;
            made = b;
            lemma_grown_sync(a, b, c, staging_path@);
            if clear {
                lemma_stays_vacant(b, c, staging_path@, tmp@);
                lemma_stays_vacant(b, c, staging_path@, dest@);
            }
        }
        match synced {
            Ok(_) => {},
            Err(e) => {
                return Err(e);
            },
        }
    }
    let ghost s1 = backend.state();
    assert(grown(a, s1));
    assert(clear ==> vacant(s1, tmp@) && vacant(s1, dest@));
    assert(s1.subvols.contains_key(staging_path@));
    assert(forall|q: PathView| #[trigger]
        s1.subvols.contains_key(q) ==> a.subvols.contains_key(q) || q == staging_path@);
    match backend.create_writable_snapshot(&staging_path, &tmp) {
        Ok(info) => {
            proof {
                u2 = info.uuid;
                lemma_snapshot_grows(s1, staging_path@, tmp@, info.uuid, false);
                lemma_grown_trans(a, s1, backend.state());
                lemma_within_self(tmp@, tmp@);
                assert(!s1.subvols.contains_key(tmp@));
                if clear {
                    lemma_stays_vacant(s1, backend.state(), tmp@, dest@);
                }
            }
        },
        Err(e) => {
            proof {
                lemma_failed_snapshot_grows(s1, backend.state(), staging_path@, tmp@, false);
                lemma_grown_trans(a, s1, backend.state());
            }
            return Err(e);
        },
    }
    let ghost s2 = backend.state();
    let synced = backend.sync_tree(&mount, &tmp);
    let ghost s3 = backend.state();
    proof {
        lemma_grown_sync(s1, s2, s3, tmp@);
        lemma_grown_trans(a, s1, s3);
        if clear {
            lemma_stays_vacant(s2, s3, tmp@, dest@);
        }
    }
    match synced {
        Ok(_) => {},
        Err(e) => {
            return Err(e);
        },
    }
    match backend.create_readonly_snapshot(&tmp, &dest) {
        Ok(info) => {
            proof {
                u4 = info.uuid;
                lemma_snapshot_grows(s3, tmp@, dest@, info.uuid, true);
                lemma_grown_trans(a, s3, backend.state());
                lemma_grown_trans(s1, s3, backend.state());
            }
        },
        Err(e) => {
            proof {
                lemma_failed_snapshot_grows(s3, backend.state(), tmp@, dest@, true);
                lemma_grown_trans(a, s3, backend.state());
            }
            return Err(e);
        },
    }
    let ghost s4 = backend.state();
    let deleted = backend.delete_subvolume(&tmp);
    proof {
        let s5 = backend.state();
        lemma_within_self(tmp@, tmp@);
        assert(!a.subvols.contains_key(tmp@));
        if clear {
            assert(childless(s4, tmp@)) by {
                assert forall|q: PathView| #[trigger] s4.subvols.contains_key(q) implies !under(
                    q,
                    tmp@,
                ) by {
                    lemma_within_self(q, tmp@);
                    if q != dest@ && q != tmp@ {
                        assert(s1.subvols.contains_key(q));
                    }
                }
            }
        }
        if deleted is Ok {
            lemma_grown_without(a, s4, tmp@);
            lemma_grown_without(s1, s4, tmp@);
            assert(s5.subvols.contains_key(dest@)) by {
                lemma_within_self(dest@, tmp@);
                assert(childless(s4, tmp@));
            }
            if apart(mount@, staging_path@) && apart(mount@, tmp@) {
                lemma_mirrored(
                    a,
                    fresh,
                    s1,
                    s2,
                    s3,
                    s4,
                    s5,
                    mount@,
                    staging_path@,
                    tmp@,
                    dest@,
                    u2,
                    u4,
                );
            }
            if apart(mount@, staging_path@) && staged_anew(
                a,
                config@,
                toplevel@,
                strain@,
                id@,
            ) {
                lemma_staged(
                    a,
                    made,
                    s1,
                    s2,
                    s3,
                    s4,
                    s5,
                    mount@,
                    staging_path@,
                    tmp@,
                    dest@,
                    u2,
                    u4,
                );
            }
        } else {
            assert forall|p: PathView| #[trigger]
                s5.subvols.contains_key(p) implies s4.subvols.contains_key(p) by {
                assert(s5.subvols.dom().contains(p));
            }
            assert forall|p: PathView| #[trigger]
                s4.subvols.contains_key(p) implies s5.subvols.contains_key(p) by {
                assert(s4.subvols.dom().contains(p));
            }
            assert forall|p: PathView| #[trigger]
                s5.files.contains_key(p) && !a.files.contains_key(
                    p,
                ) implies crate::backend::effects::in_new(a, s5, p) by {
                assert(crate::backend::effects::in_new(a, s4, p));
                let n = choose|n: PathView|
                    s4.subvols.contains_key(n) && !a.subvols.contains_key(n)
                        && #[trigger] within(p, n);
                assert(s5.subvols.contains_key(n) && !a.subvols.contains_key(n) && within(p, n));
            }
            assert(grown(a, s5));
        }
    }
    deleted
}

/// A place stays vacant while an empty subvolume is made elsewhere.
proof fn lemma_vacant_beside(a: FsState, made: PathView, uuid: u128, p: PathView)
    requires
        vacant(a, p),
        !within(made, p),
    ensures
        vacant(with_subvolume(a, made, uuid), p),
{
}

/// Whether snapshot `id` of a strain can be taken: the snapshot directory
/// exists or can be made, the strain's subvolumes exist, and the places of
/// the snapshot's parts are free and do not overlap one another or anything
/// that is made on the way.
pub open spec fn ready(
    st: FsState,
    c: ConfigView,
    toplevel: PathView,
    strain: Seq<char>,
    id: Seq<char>,
) -> bool {
    let s = lookup(c.strain, strain)->0;
    let subs = s.subvolumes;
    let dir = snap_dir_of(c, toplevel);
    let staging = path_join(toplevel, c.sys.staging_subvol);
    let tmp = temp_path(c, toplevel, strain, id);
    let dest = part_path(c, toplevel, strain, id, c.sys.staging_subvol);
    &&& lookup(c.strain, strain) is Some
    &&& st.subvols.contains_key(dir) || vacant(st, dir)
    &&& all_clear(st, c, toplevel, strain, id, subs, 0)
    &&& forall|i: int|
        0 <= i < subs.len() ==> !within(
            dir,
            part_path(c, toplevel, strain, id, #[trigger] subs[i]),
        )
    &&& s.efi && c.sys.efi_enabled ==> {
        &&& efi_clear(st, c, toplevel, strain, id)
        &&& !within(dir, staging)
        &&& !within(dir, tmp)
        &&& !within(dir, dest)
        &&& forall|i: int|
            0 <= i < subs.len() ==> {
                let p = part_path(c, toplevel, strain, id, #[trigger] subs[i]);
                apart(p, staging) && apart(p, tmp) && apart(p, dest)
            }
    }
}

/// Places apart from the snapshots of a strain's subvolumes stay vacant while
/// those are made.
proof fn lemma_vacant_through(
    a: FsState,
    b: FsState,
    c: ConfigView,
    toplevel: PathView,
    strain: Seq<char>,
    id: Seq<char>,
    subs: Seq<Seq<char>>,
    p: PathView,
)
    requires
        grown(a, b),
        vacant(a, p),
        forall|q: PathView| #[trigger]
            b.subvols.contains_key(q) ==> a.subvols.contains_key(q) || is_part_path(
                c,
                toplevel,
                strain,
                id,
                subs,
                subs.len() as int,
                q,
            ),
        forall|i: int|
            0 <= i < subs.len() ==> apart(
                part_path(c, toplevel, strain, id, #[trigger] subs[i]),
                p,
            ),
    ensures
        vacant(b, p),
{
    assert forall|q: PathView| #[trigger] b.subvols.contains_key(q) implies !within(q, p) by {
        if !a.subvols.contains_key(q) {
            let i = choose|i: int|
                0 <= i < subs.len() && q == part_path(c, toplevel, strain, id, #[trigger] subs[i]);
            assert(apart(part_path(c, toplevel, strain, id, subs[i]), p));
        }
    }
    assert forall|q: PathView| #[trigger] b.files.contains_key(q) implies !within(q, p) by {
        if !a.files.contains_key(q) && within(q, p) {
            assert(crate::backend::effects::in_new(a, b, q));
            let n = choose|n: PathView|
                b.subvols.contains_key(n) && !a.subvols.contains_key(n) && #[trigger] within(q, n);
            let i = choose|i: int|
                0 <= i < subs.len() && n == part_path(c, toplevel, strain, id, #[trigger] subs[i]);
            assert(apart(part_path(c, toplevel, strain, id, subs[i]), p));
            crate::path::lemma_within_comparable(q, n, p);
        }
    }
}

/// Snapshots of a strain's subvolumes leave the files of a place apart from
/// them as they were.
proof fn lemma_files_beside(
    s1: FsState,
    s2: FsState,
    c: ConfigView,
    toplevel: PathView,
    strain: Seq<char>,
    id: Seq<char>,
    subs: Seq<Seq<char>>,
    base: PathView,
    x: PathView,
)
    requires
        grown(s1, s2),
        forall|q: PathView| #[trigger]
            s2.subvols.contains_key(q) ==> s1.subvols.contains_key(q) || is_part_path(
                c,
                toplevel,
                strain,
                id,
                subs,
                subs.len() as int,
                q,
            ),
        forall|i: int|
            0 <= i < subs.len() ==> apart(
                base,
                part_path(c, toplevel, strain, id, #[trigger] subs[i]),
            ),
        under(x, base),
    ensures
        s2.files.contains_key(x) == s1.files.contains_key(x),
        s1.files.contains_key(x) ==> s2.files[x] == s1.files[x],
{
    if s2.files.contains_key(x) && !s1.files.contains_key(x) {
        assert(crate::backend::effects::in_new(s1, s2, x));
        let n = choose|n: PathView|
            s2.subvols.contains_key(n) && !s1.subvols.contains_key(n) && #[trigger] within(x, n);
        let i = choose|i: int|
            0 <= i < subs.len() && n == part_path(c, toplevel, strain, id, #[trigger] subs[i]);
        assert(apart(base, part_path(c, toplevel, strain, id, subs[i])));
        lemma_within_self(x, base);
        lemma_apart_inside(x, base, n);
    }
}

/// A mirror of the EFI partition is one of the partition as it was before the
/// snapshot was begun.
proof fn lemma_mirror_kept(
    a: FsState,
    s1: FsState,
    s2: FsState,
    b: FsState,
    c: ConfigView,
    toplevel: PathView,
    strain: Seq<char>,
    id: Seq<char>,
    p: PathView,
)
    requires
        efi_separate(c, toplevel, strain, id),
        s1.files == a.files,
        grown(s1, s2),
        forall|q: PathView| #[trigger]
            s2.subvols.contains_key(q) ==> s1.subvols.contains_key(q) || is_part_path(
                c,
                toplevel,
                strain,
                id,
                lookup(c.strain, strain)->0.subvolumes,
                lookup(c.strain, strain)->0.subvolumes.len() as int,
                q,
            ),
        mirrors(
            s2,
            b,
            crate::path::path_of(c.sys.efi_mount),
            path_join(toplevel, c.sys.staging_subvol),
            p,
        ),
    ensures
        mirrors(
            a,
            b,
            crate::path::path_of(c.sys.efi_mount),
            path_join(toplevel, c.sys.staging_subvol),
            p,
        ),
{
    let mount = crate::path::path_of(c.sys.efi_mount);
    let staging = path_join(toplevel, c.sys.staging_subvol);
    let subs = lookup(c.strain, strain)->0.subvolumes;
    assert forall|x: PathView| under(x, p) implies (#[trigger] b.files.contains_key(x)
        == a.files.contains_key(moved(x, p, mount))) && (b.files.contains_key(x) ==> b.files[x]
        == a.files[moved(x, p, mount)] || (a.files.contains_key(moved(x, p, staging))
        && b.files[x] == a.files[moved(x, p, staging)])) by {
        let z = moved(x, p, mount);
        let w = moved(x, p, staging);
        lemma_within_self(x, p);
        lemma_moved_back(x, p, mount);
        lemma_moved_back(x, p, staging);
        lemma_files_beside(s1, s2, c, toplevel, strain, id, subs, mount, z);
        lemma_files_beside(s1, s2, c, toplevel, strain, id, subs, staging, w);
        if b.files.contains_key(x) {
            assert(b.files[x] == s2.files[z] || (s2.files.contains_key(w) && b.files[x]
                == s2.files[w]));
        }
    }
}

/// Orchestrate a full snapshot creation for a given strain, with the given
/// ID and creation time.
///
/// DELETE markers are left alone. A sidecar that cannot be written does not
/// fail the snapshot. If a step fails, nothing that was there is lost.
pub fn create_snapshot_at<B: FileSystemBackend>(
    config: &Config,
    backend: &mut B,
    toplevel: &FsPath,
    strain_name: &str,
    trigger: TriggerKind,
    message: Vec<String>,
    id: SnapshotId,
    created_at: WallTime,
) -> (r: Result<SnapshotInfo>)
    requires
        created_at.wf(),
    ensures
        final(backend).reliable() == old(backend).reliable(),
        lookup(config@.strain, strain_name@) is None ==> (r matches Err(e) && e@
            == ErrorView::Config("unknown strain: "@ + strain_name@) && final(backend).state()
            == old(backend).state()),
        r is Err ==> grown(old(backend).state(), final(backend).state()),
        r is Ok ==> {
            let s = lookup(config@.strain, strain_name@)->0;
            let info = r->Ok_0@;
            &&& info.id == id@
            &&& info.strain == strain_name@
            &&& info.subvolumes == strain_parts(config@, s)
            &&& info.efi_synced == (s.efi && config@.sys.efi_enabled)
            &&& info.metadata is None || info.metadata == Some(
                new_record(created_at, trigger, views(message@)),
            )
        },
        r is Ok ==> exists|mid: FsState| #[trigger]
            taken(old(backend).state(), mid, config@, toplevel@, strain_name@, id@) && recorded(
                mid,
                final(backend).state(),
                sidecar_at(snap_dir_of(config@, toplevel@), strain_name@, id@),
                r->Ok_0@.metadata,
            ),
        r is Ok && old(backend).reliable() && is_component(sidecar_name(strain_name@, id@))
            && all_quotes_fit(views(message@)) ==> r->Ok_0@.metadata is Some,
        old(backend).reliable() && ready(
            old(backend).state(),
            config@,
            toplevel@,
            strain_name@,
            id@,
        ) ==> r is Ok,
{
    let ghost a = backend.state();
    let s = match config.strain(strain_name) {
        Ok(s) => s,
        Err(e) => {
            return Err(e);
        },
    };
    let dir = match ensure_snapshot_dir(config, backend, toplevel) {
        Ok(d) => d,
        Err(e) => {
            proof {
                lemma_grown_refl(a);
            }
            return Err(e);
        },
    };
    let ghost s1 = backend.state();
    proof {
        let uuid = choose|uuid: u128| s1 == #[trigger] with_dir(a, dir@, uuid);
        lemma_grown_refl(a);
        if !a.subvols.contains_key(dir@) {
            assert(vacant(a, dir@));
            lemma_subvolume_grows(a, dir@, uuid);
        }
        if ready(a, config@, toplevel@, strain_name@, id@) {
            let subs = s@.subvolumes;
            if !a.subvols.contains_key(dir@) {
                assert forall|i: int| 0 <= i < subs.len() implies can_snapshot(
                    s1,
                    path_join(toplevel@, #[trigger] subs[i]),
                    part_path(config@, toplevel@, strain_name@, id@, subs[i]),
                ) by {
                    assert(can_snapshot(
                        a,
                        path_join(toplevel@, subs[i]),
                        part_path(config@, toplevel@, strain_name@, id@, subs[i]),
                    ));
                    lemma_vacant_beside(
                        a,
                        dir@,
                        uuid,
                        part_path(config@, toplevel@, strain_name@, id@, subs[i]),
                    );
                }
                if efi_clear(a, config@, toplevel@, strain_name@, id@) && s@.efi
                    && config@.sys.efi_enabled {
                    let staging = path_join(toplevel@, config@.sys.staging_subvol);
                    lemma_vacant_beside(
                        a,
                        dir@,
                        uuid,
                        temp_path(config@, toplevel@, strain_name@, id@),
                    );
                    lemma_vacant_beside(
                        a,
                        dir@,
                        uuid,
                        part_path(
                            config@,
                            toplevel@,
                            strain_name@,
                            id@,
                            config@.sys.staging_subvol,
                        ),
                    );
                    if vacant(a, staging) {
                        lemma_vacant_beside(a, dir@, uuid, staging);
                    }
                    assert(efi_clear(s1, config@, toplevel@, strain_name@, id@));
                }
            }
            assert(all_clear(s1, config@, toplevel@, strain_name@, id@, subs, 0));
        }
    }
    match snapshot_subvolumes(config, backend, toplevel, strain_name, s, &dir, &id) {
        Ok(_) => {},
        Err(e) => {
            proof {
                lemma_grown_trans(a, s1, backend.state());
            }
            return Err(e);
        },
    }
    let ghost s2 = backend.state();
    proof {
        lemma_grown_trans(a, s1, s2);
    }
    let mut subvolumes = clone_texts(&s.subvolumes);
    let efi_synced: bool = s.efi && config.sys.efi.enabled;
    if efi_synced {
        proof {
            if ready(a, config@, toplevel@, strain_name@, id@) {
                let staging = path_join(toplevel@, config@.sys.staging_subvol);
                let subs = s@.subvolumes;
                assert(efi_clear(s1, config@, toplevel@, strain_name@, id@));
                lemma_vacant_through(
                    s1,
                    s2,
                    config@,
                    toplevel@,
                    strain_name@,
                    id@,
                    subs,
                    temp_path(config@, toplevel@, strain_name@, id@),
                );
                lemma_vacant_through(
                    s1,
                    s2,
                    config@,
                    toplevel@,
                    strain_name@,
                    id@,
                    subs,
                    part_path(config@, toplevel@, strain_name@, id@, config@.sys.staging_subvol),
                );
                if !s1.subvols.contains_key(staging) {
                    lemma_vacant_through(
                        s1,
                        s2,
                        config@,
                        toplevel@,
                        strain_name@,
                        id@,
                        subs,
                        staging,
                    );
                }
                assert(efi_clear(s2, config@, toplevel@, strain_name@, id@));
            }
        }
        let done = snapshot_efi(config, backend, toplevel, strain_name, &dir, &id);
        proof {
            lemma_grown_trans(a, s2, backend.state());
            if done is Ok && efi_separate(config@, toplevel@, strain_name@, id@) {
                let staging = path_join(toplevel@, config@.sys.staging_subvol);
                lemma_mirror_kept(
                    a,
                    s1,
                    s2,
                    backend.state(),
                    config@,
                    toplevel@,
                    strain_name@,
                    id@,
                    part_path(config@, toplevel@, strain_name@, id@, config@.sys.staging_subvol),
                );
                if staged_anew(a, config@, toplevel@, strain_name@, id@) {
                    assert(!s2.subvols.contains_key(staging)) by {
                        lemma_within_self(staging, staging);
                    }
                    lemma_mirror_kept(
                        a,
                        s1,
                        s2,
                        backend.state(),
                        config@,
                        toplevel@,
                        strain_name@,
                        id@,
                        staging,
                    );
                }
            }
        }
        match done {
            Ok(_) => {},
            Err(e) => {
                return Err(e);
            },
        }
        let staging: String = config.sys.efi.staging_subvol.clone();
        proof {
            lemma_views_push(subvolumes@, staging);
        }
        subvolumes.push(staging);
    }
    let ghost mid = backend.state();
    proof {
        let subs = s@.subvolumes;
        let parts = strain_parts(config@, s@);
        if !efi_synced {
            lemma_grown_refl(s2);
        }
        assert forall|i: int| 0 <= i < subs.len() implies is_copy(
            mid,
            path_join(toplevel@, #[trigger] subs[i]),
            part_path(config@, toplevel@, strain_name@, id@, subs[i]),
            true,
        ) by {
            lemma_grown_copy(
                s2,
                mid,
                path_join(toplevel@, subs[i]),
                part_path(config@, toplevel@, strain_name@, id@, subs[i]),
                true,
            );
        }
        assert forall|p: PathView| #[trigger] mid.subvols.contains_key(p) implies
            a.subvols.contains_key(p) || p == dir@ || (efi_synced && p == path_join(
            toplevel@,
            config@.sys.staging_subvol,
        )) || is_part_path(
            config@,
            toplevel@,
            strain_name@,
            id@,
            parts,
            parts.len() as int,
            p,
        ) by {
            if !a.subvols.contains_key(p) && p != dir@ {
                if s2.subvols.contains_key(p) {
                    assert(!s1.subvols.contains_key(p));
                    assert(is_part_path(
                        config@,
                        toplevel@,
                        strain_name@,
                        id@,
                        subs,
                        subs.len() as int,
                        p,
                    ));
                    let i = choose|i: int|
                        0 <= i < subs.len() && p == part_path(
                            config@,
                            toplevel@,
                            strain_name@,
                            id@,
                            #[trigger] subs[i],
                        );
                    assert(parts[i] == subs[i]);
                } else {
                    assert(parts[parts.len() - 1] == config@.sys.staging_subvol);
                }
            }
        }
        assert(s1.subvols.contains_key(dir@));
        lemma_grown_trans(s1, s2, mid);
        assert(mid.subvols.contains_key(dir@));
        assert(taken(a, mid, config@, toplevel@, strain_name@, id@));
    }
    let sidecar = sidecar_path_for_snapshot(&dir, strain_name, &id);
    let record = SnapshotMetadata::created(created_at, trigger, message);
    proof {
        if is_component(sidecar_name(strain_name@, id@)) {
            let d = snap_dir_of(config@, toplevel@);
            lemma_within_self(d, d);
            assert(is_directory(backend.state(), backend.directories(), d));
            lemma_has_parent(
                backend.state(),
                backend.directories(),
                d,
                sidecar_name(strain_name@, id@),
            );
        }
    }
    let metadata: Option<SnapshotMetadata> = match metadata::write(backend, &sidecar, &record) {
        Ok(_) => Some(record),
        Err(_) => None,
    };
    let info: Result<SnapshotInfo> = Ok(
        SnapshotInfo { id, strain: strain_name.to_owned(), subvolumes, efi_synced, metadata },
    );
    assert(recorded(mid, backend.state(), sidecar@, info->Ok_0@.metadata));
    info
}

/// Whether a snapshot of a strain can be created whatever the clock shows.
pub open spec fn always_ready(
    st: FsState,
    c: ConfigView,
    toplevel: PathView,
    strain: Seq<char>,
) -> bool {
    forall|id: Seq<char>| #[trigger] is_clock_id(id) ==> ready(st, c, toplevel, strain, id)
}

/// Orchestrate a full snapshot creation for a given strain, now.
///
/// The ID and the creation time are the clock's; what is done with them is
/// what [`create_snapshot_at`] does.
pub fn create_snapshot<B: FileSystemBackend>(
    config: &Config,
    backend: &mut B,
    toplevel: &FsPath,
    strain_name: &str,
    trigger: TriggerKind,
    message: Vec<String>,
) -> (r: Result<SnapshotInfo>)
    ensures
        final(backend).reliable() == old(backend).reliable(),
        lookup(config@.strain, strain_name@) is None ==> (r matches Err(e) && e@
            == ErrorView::Config("unknown strain: "@ + strain_name@) && final(backend).state()
            == old(backend).state()),
        r is Err ==> grown(old(backend).state(), final(backend).state()),
        r is Ok ==> {
            let s = lookup(config@.strain, strain_name@)->0;
            let info = r->Ok_0@;
            &&& is_clock_id(info.id)
            &&& info.strain == strain_name@
            &&& info.subvolumes == strain_parts(config@, s)
            &&& info.efi_synced == (s.efi && config@.sys.efi_enabled)
            &&& info.metadata matches Some(v) ==> v == new_record(
                v.created_at,
                trigger,
                views(message@),
            ) && v.created_at.wf()
            &&& old(backend).reliable() && is_component(sidecar_name(strain_name@, info.id))
                && all_quotes_fit(views(message@)) ==> info.metadata is Some
        },
        r is Ok ==> exists|mid: FsState| #[trigger]
            taken(
                old(backend).state(),
                mid,
                config@,
                toplevel@,
                strain_name@,
                r->Ok_0@.id,
            ) && recorded(
                mid,
                final(backend).state(),
                sidecar_at(snap_dir_of(config@, toplevel@), strain_name@, r->Ok_0@.id),
                r->Ok_0@.metadata,
            ),
        old(backend).reliable() && always_ready(
            old(backend).state(),
            config@,
            toplevel@,
            strain_name@,
        ) ==> r is Ok,
{
    let id = SnapshotId::now();
    create_snapshot_at(
        config,
        backend,
        toplevel,
        strain_name,
        trigger,
        message,
        id,
        local_now(),
    )
}

/// The paths of the parts of a snapshot.
pub open spec fn info_paths(c: ConfigView, toplevel: PathView, s: InfoView) -> Seq<PathView> {
    Seq::new(
        s.subvolumes.len(),
        |i: int| part_path(c, toplevel, s.strain, s.id, s.subvolumes[i]),
    )
}

/// The path of a snapshot's sidecar.
pub open spec fn info_sidecar(c: ConfigView, toplevel: PathView, s: InfoView) -> PathView {
    sidecar_at(snap_dir_of(c, toplevel), s.strain, s.id)
}

/// Delete a snapshot and all its associated subvolumes.
///
/// A snapshot whose sidecar carries `protected = true` is refused and nothing
/// is removed.
pub fn delete_snapshot<B: FileSystemBackend>(
    config: &Config,
    backend: &mut B,
    toplevel: &FsPath,
    snapshot: &SnapshotInfo,
) -> (r: Result<()>)
    ensures
        final(backend).reliable() == old(backend).reliable(),
        is_protected(snapshot@.metadata) ==> (r matches Err(e) && e@
            == (ErrorView::ProtectedSnapshot { strain: snapshot@.strain, id: snapshot@.id })
            && final(backend).state() == old(backend).state()),
        pruned(
            old(backend).state(),
            final(backend).state(),
            info_paths(config@, toplevel@, snapshot@),
            seq![info_sidecar(config@, toplevel@, snapshot@)],
            r is Ok && old(backend).reliable(),
        ),
        old(backend).reliable() && !is_protected(snapshot@.metadata) && (forall|i: int|
            0 <= i < snapshot@.subvolumes.len() ==> removable(
                old(backend).state(),
                #[trigger] info_paths(config@, toplevel@, snapshot@)[i],
            )) ==> r is Ok,
{
    let ghost a = backend.state();
    let ghost paths = info_paths(config@, toplevel@, snapshot@);
    let ghost side = info_sidecar(config@, toplevel@, snapshot@);
    let ghost exact = backend.reliable();
    proof {
        lemma_pruned_refl(a);
        lemma_pruned_weaken(a, a, Seq::empty(), Seq::empty());
        lemma_pruned_more(a, a, Seq::empty(), Seq::empty(), paths, seq![side]);
        assert(Seq::<PathView>::empty() + paths =~= paths);
        assert(Seq::<PathView>::empty() + seq![side] =~= seq![side]);
    }
    let protected: bool = match &snapshot.metadata {
        Some(m) => m.protected,
        None => false,
    };
    if protected {
        return Err(
            RevenantError::ProtectedSnapshot {
                strain: snapshot.strain.clone(),
                id: snapshot.id.as_str().to_owned(),
            },
        );
    }
    let dir = snapshot_dir(config, toplevel);
    let mut i: usize = 0;
    proof {
        assert(paths.take(0) =~= Seq::empty());
    }
    while i < snapshot.subvolumes.len()
        invariant
            i <= snapshot.subvolumes.len(),
            paths == info_paths(config@, toplevel@, snapshot@),
            side == info_sidecar(config@, toplevel@, snapshot@),
            paths.len() == snapshot.subvolumes.len(),
            dir@ == snap_dir_of(config@, toplevel@),
            a == old(backend).state(),
            exact == old(backend).reliable(),
            backend.reliable() == exact,
            !is_protected(snapshot@.metadata),
            pruned(a, backend.state(), paths.take(i as int), Seq::empty(), exact),
        decreases snapshot.subvolumes.len() - i,
    {
        let subvol = snapshot.subvolumes[i].as_str();
        let path = dir.join(snapshot.id.snapshot_name(subvol, snapshot.strain.as_str()).as_str());
        let ghost b = backend.state();
        proof {
            assert(views(snapshot.subvolumes@)[i as int] == subvol@);
            assert(paths[i as int] == path@);
            assert(paths.take(i + 1) =~= paths.take(i as int) + seq![path@]);
            assert(Seq::<PathView>::empty() + Seq::<PathView>::empty() =~= Seq::empty());
        }
        if subvol_exists(backend, &path) {
            match backend.delete_subvolume(&path) {
                Ok(_) => {
                    proof {
                        lemma_pruned_without(b, path@);
                        lemma_pruned_weaken(b, backend.state(), seq![path@], Seq::empty());
                    }
                },
                Err(e) => {
                    proof {
                        let c = backend.state();
                        if exact {
                            lemma_pruned_weaken(a, b, paths.take(i as int), Seq::empty());
                            if forall|j: int|
                                0 <= j < snapshot@.subvolumes.len() ==> removable(
                                    a,
                                    #[trigger] paths[j],
                                ) {
                                assert(removable(a, paths[i as int]));
                                assert(can_delete(b, path@));
                            }
                        }
                        lemma_pruned_same_tree(b, c, path@);
                        lemma_pruned_trans(
                            a,
                            b,
                            c,
                            paths.take(i as int),
                            Seq::empty(),
                            seq![path@],
                            Seq::empty(),
                            false,
                        );
                        lemma_pruned_more(
                            a,
                            c,
                            paths.take(i + 1),
                            Seq::empty(),
                            paths.skip(i + 1),
                            seq![side],
                        );
                        assert(paths.take(i + 1) + paths.skip(i + 1) =~= paths);
                        assert(Seq::<PathView>::empty() + seq![side] =~= seq![side]);
                    }
                    return Err(e);
                },
            }
        } else {
            proof {
                if exact {
                    lemma_pruned_absent(b, path@);
                } else {
                    lemma_pruned_kept(b, path@);
                }
            }
        }
        proof {
            lemma_pruned_trans(
                a,
                b,
                backend.state(),
                paths.take(i as int),
                Seq::empty(),
                seq![path@],
                Seq::empty(),
                exact,
            );
        }
        i = i + 1;
    }
    let sidecar = sidecar_path_for_snapshot(&dir, snapshot.strain.as_str(), &snapshot.id);
    let ghost b = backend.state();
    let _ = metadata::remove(backend, &sidecar);
    proof {
        assert(paths.take(paths.len() as int) =~= paths);
        assert(sidecar@ == side);
        lemma_pruned_file(a, b, backend.state(), paths, side, exact);
    }
    Ok(())
}

/// Outcome of [`delete_all_strain`]: IDs that were removed, and IDs that were
/// skipped because the snapshot is protected.
#[derive(Debug, PartialEq, Eq)]
pub struct BulkDeleteOutcome {
    pub deleted: Vec<String>,
    pub skipped_protected: Vec<String>,
}

/// Field-level patch for an existing snapshot's sidecar. `None` leaves the
/// field alone; an empty list of notes clears them.
#[derive(Debug, PartialEq, Eq)]
pub struct MetadataPatch {
    pub protected: Option<bool>,
    pub message: Option<Vec<String>>,
}

impl Default for MetadataPatch {
    fn default() -> (r: MetadataPatch)
        ensures
            r.protected is None,
            r.message is None,
    {
        MetadataPatch { protected: None, message: None }
    }
}

impl MetadataPatch {
    /// `true` when no field is set.
    #[must_use]
    pub fn is_empty(&self) -> (r: bool)
        ensures
            r == (self.protected is None && self.message is None),
    {
        self.protected.is_none() && self.message.is_none()
    }

    /// The record after the patch.
    pub open spec fn applied(self, m: MetaView) -> MetaView {
        MetaView {
            protected: match self.protected {
                Some(b) => b,
                None => m.protected,
            },
            message: match self.message {
                Some(v) => views(v@),
                None => m.message,
            },
            ..m
        }
    }

    /// Applies the patch to a record.
    pub fn apply(&self, meta: SnapshotMetadata) -> (r: SnapshotMetadata)
        ensures
            r@ == self.applied(meta@),
    {
        let protected: bool = match self.protected {
            Some(b) => b,
            None => meta.protected,
        };
        let message: Vec<String> = match &self.message {
            Some(v) => clone_texts(v),
            None => meta.message,
        };
        SnapshotMetadata {
            schema_version: meta.schema_version,
            created_at: meta.created_at,
            trigger: meta.trigger,
            message,
            protected,
        }
    }
}

/// Apply `patch` to a snapshot's sidecar in place and return the updated
/// record. It is an error if the snapshot has no sidecar, or if a note has too
/// long a run of one quote.
pub fn update_snapshot_metadata<B: FileSystemBackend>(
    config: &Config,
    backend: &mut B,
    toplevel: &FsPath,
    snapshot: &SnapshotInfo,
    patch: &MetadataPatch,
) -> (r: Result<SnapshotMetadata>)
    ensures
        final(backend).reliable() == old(backend).reliable(),
        r is Err ==> final(backend).state() == old(backend).state(),
        r is Ok ==> {
            let path = info_sidecar(config@, toplevel@, snapshot@);
            &&& sidecar_in(old(backend).state(), path) is Some
            &&& r->Ok_0@ == patch.applied(sidecar_in(old(backend).state(), path)->0)
            &&& recorded(old(backend).state(), final(backend).state(), path, Some(r->Ok_0@))
            &&& sidecar_in(final(backend).state(), path) == Some(r->Ok_0@)
        },
        old(backend).reliable() && !old(backend).state().files.contains_key(
            info_sidecar(config@, toplevel@, snapshot@),
        ) ==> (r matches Err(e) && e@ == ErrorView::Other(
            "snapshot "@ + snapshot@.strain + "@"@ + snapshot@.id
                + " has no sidecar metadata to edit"@,
        )),
        old(backend).reliable() ==> (sidecar_in(
            old(backend).state(),
            info_sidecar(config@, toplevel@, snapshot@),
        ) matches Some(m) ==> (r is Ok <==> all_quotes_fit(patch.applied(m).message)) && (
        r matches Err(e) ==> e@ is Other)),
{
    let dir = snapshot_dir(config, toplevel);
    let sidecar = sidecar_path_for_snapshot(&dir, snapshot.strain.as_str(), &snapshot.id);
    let found = match metadata::read(backend, &sidecar) {
        Ok(m) => m,
        Err(e) => {
            return Err(e);
        },
    };
    let meta = match found {
        Some(m) => patch.apply(m),
        None => {
            return Err(
                RevenantError::Other(
                    cat5(
                        "snapshot ",
                        snapshot.strain.as_str(),
                        "@",
                        snapshot.id.as_str(),
                        " has no sidecar metadata to edit",
                    ),
                ),
            );
        },
    };
    proof {
        if backend.state().files.contains_key(sidecar@) {
            lemma_present_has_parent(backend.state(), backend.directories(), sidecar@);
        }
    }
    match metadata::write(backend, &sidecar, &meta) {
        Ok(_) => Ok(meta),
        Err(e) => Err(e),
    }
}

/// The snapshots of a strain among `all` that are protected, or that are not.
pub open spec fn chosen(all: Seq<InfoView>, strain: Seq<char>, protected: bool) -> Seq<InfoView>
    decreases all.len(),
{
    if all.len() == 0 {
        Seq::empty()
    } else {
        let rest = chosen(all.drop_last(), strain, protected);
        let s = all.last();
        if s.strain == strain && is_protected(s.metadata) == protected {
            rest.push(s)
        } else {
            rest
        }
    }
}

/// The IDs of some snapshots.
pub open spec fn ids_of(v: Seq<InfoView>) -> Seq<Seq<char>> {
    Seq::new(v.len(), |i: int| v[i].id)
}

/// The paths of the parts of some snapshots.
pub open spec fn all_paths(c: ConfigView, toplevel: PathView, v: Seq<InfoView>) -> Seq<PathView>
    decreases v.len(),
{
    if v.len() == 0 {
        Seq::empty()
    } else {
        all_paths(c, toplevel, v.drop_last()) + info_paths(c, toplevel, v.last())
    }
}

/// The paths of the sidecars of some snapshots.
pub open spec fn all_sidecars(
    c: ConfigView,
    toplevel: PathView,
    v: Seq<InfoView>,
) -> Seq<PathView>
    decreases v.len(),
{
    if v.len() == 0 {
        Seq::empty()
    } else {
        all_sidecars(c, toplevel, v.drop_last()) + seq![info_sidecar(c, toplevel, v.last())]
    }
}

/// Whether `b` is `a` after the snapshots `v` were deleted.
pub open spec fn deleted_all(
    a: FsState,
    b: FsState,
    c: ConfigView,
    toplevel: PathView,
    v: Seq<InfoView>,
    exact: bool,
) -> bool {
    pruned(a, b, all_paths(c, toplevel, v), all_sidecars(c, toplevel, v), exact)
}

/// Whether no subvolume is nested in a part of one of the snapshots `v` that is
/// there.
pub open spec fn all_removable(
    st: FsState,
    c: ConfigView,
    toplevel: PathView,
    v: Seq<InfoView>,
) -> bool {
    forall|k: int, i: int|
        0 <= k < v.len() && 0 <= i < v[k].subvolumes.len() ==> removable(
            st,
            #[trigger] info_paths(c, toplevel, v[k])[i],
        )
}

pub proof fn lemma_deleted_none(a: FsState, c: ConfigView, toplevel: PathView, exact: bool)
    ensures
        deleted_all(a, a, c, toplevel, Seq::empty(), exact),
{
    lemma_pruned_refl(a);
    lemma_pruned_weaken(a, a, Seq::empty(), Seq::empty());
}

pub proof fn lemma_deleted_push(
    a: FsState,
    b: FsState,
    d: FsState,
    c: ConfigView,
    toplevel: PathView,
    v: Seq<InfoView>,
    s: InfoView,
    exact: bool,
)
    requires
        deleted_all(a, b, c, toplevel, v, exact),
        pruned(
            b,
            d,
            info_paths(c, toplevel, s),
            seq![info_sidecar(c, toplevel, s)],
            exact,
        ),
    ensures
        deleted_all(a, d, c, toplevel, v.push(s), exact),
{
    lemma_pruned_trans(
        a,
        b,
        d,
        all_paths(c, toplevel, v),
        all_sidecars(c, toplevel, v),
        info_paths(c, toplevel, s),
        seq![info_sidecar(c, toplevel, s)],
        exact,
    );
    assert(v.push(s).drop_last() =~= v);
}

pub proof fn lemma_deleted_weaken(
    a: FsState,
    b: FsState,
    c: ConfigView,
    toplevel: PathView,
    v: Seq<InfoView>,
)
    requires
        deleted_all(a, b, c, toplevel, v, true),
    ensures
        deleted_all(a, b, c, toplevel, v, false),
{
    lemma_pruned_weaken(a, b, all_paths(c, toplevel, v), all_sidecars(c, toplevel, v));
}

/// Whether the snapshots `v` are unprotected ones of a strain.
pub open spec fn all_deletable(v: Seq<InfoView>, strain: Seq<char>) -> bool {
    forall|i: int|
        0 <= i < v.len() ==> (#[trigger] v[i]).strain == strain && !is_protected(v[i].metadata)
}

proof fn lemma_chosen_deletable(all: Seq<InfoView>, strain: Seq<char>)
    ensures
        all_deletable(chosen(all, strain, false), strain),
    decreases all.len(),
{
    if all.len() > 0 {
        lemma_chosen_deletable(all.drop_last(), strain);
    }
}

/// Whether bulk deletion of a strain turned `a` into `b` with this outcome,
/// `all` being the snapshots on disk before.
pub open spec fn bulk_deleted(
    a: FsState,
    b: FsState,
    c: ConfigView,
    toplevel: PathView,
    strain: Seq<char>,
    all: Seq<InfoView>,
    o: BulkDeleteOutcome,
) -> bool {
    &&& views(o.deleted@) == ids_of(chosen(all, strain, false))
    &&& views(o.skipped_protected@) == ids_of(chosen(all, strain, true))
    &&& deleted_all(a, b, c, toplevel, chosen(all, strain, false), true)
}

/// Delete all snapshots belonging to a given strain. Protected snapshots are
/// skipped and reported.
pub fn delete_all_strain<B: FileSystemBackend>(
    config: &Config,
    backend: &mut B,
    toplevel: &FsPath,
    strain_name: &str,
) -> (r: Result<BulkDeleteOutcome>)
    ensures
        final(backend).reliable() == old(backend).reliable(),
        exists|v: Seq<InfoView>|
            all_deletable(v, strain_name@) && #[trigger] deleted_all(
                old(backend).state(),
                final(backend).state(),
                config@,
                toplevel@,
                v,
                false,
            ),
        r matches Ok(o) ==> exists|all: Seq<InfoView>| #[trigger]
            may_discover(
                old(backend).state(),
                config@,
                toplevel@,
                all,
                old(backend).reliable(),
            ) && views(o.deleted@) == ids_of(chosen(all, strain_name@, false)) && views(
                o.skipped_protected@,
            ) == ids_of(chosen(all, strain_name@, true)) && deleted_all(
                old(backend).state(),
                final(backend).state(),
                config@,
                toplevel@,
                chosen(all, strain_name@, false),
                old(backend).reliable(),
            ),
        old(backend).reliable() ==> exists|all: Seq<InfoView>| #[trigger]
            discovered(old(backend).state(), config@, toplevel@, all) && (r is Ok ==> bulk_deleted(
                old(backend).state(),
                final(backend).state(),
                config@,
                toplevel@,
                strain_name@,
                all,
                r->Ok_0,
            )) && (all_removable(
                old(backend).state(),
                config@,
                toplevel@,
                chosen(all, strain_name@, false),
            ) ==> r is Ok),
{
    let ghost a = backend.state();
    let ghost exact = backend.reliable();
    let all = match discover_snapshots(config, backend, toplevel) {
        Ok(v) => v,
        Err(e) => {
            proof {
                lemma_deleted_none(a, config@, toplevel@, false);
                assert(all_deletable(Seq::empty(), strain_name@));
            }
            return Err(e);
        },
    };
    let ghost v = infos(all@);
    let mut deleted: Vec<String> = Vec::new();
    let mut skipped: Vec<String> = Vec::new();
    let mut i: usize = 0;
    proof {
        assert(v.take(0) =~= Seq::empty());
        assert(views(deleted@) =~= ids_of(Seq::empty()));
        assert(views(skipped@) =~= ids_of(Seq::empty()));
        lemma_deleted_none(a, config@, toplevel@, exact);
        if exact {
            assert(discovered(a, config@, toplevel@, v));
        }
    }
    while i < all.len()
        invariant
            i <= all.len(),
            v == infos(all@),
            a == old(backend).state(),
            exact == old(backend).reliable(),
            backend.reliable() == exact,
            exact ==> discovered(a, config@, toplevel@, v),
            may_discover(a, config@, toplevel@, v, exact),
            views(deleted@) == ids_of(chosen(v.take(i as int), strain_name@, false)),
            views(skipped@) == ids_of(chosen(v.take(i as int), strain_name@, true)),
            deleted_all(
                a,
                backend.state(),
                config@,
                toplevel@,
                chosen(v.take(i as int), strain_name@, false),
                exact,
            ),
        decreases all.len() - i,
    {
        let s = &all[i];
        let ghost done = chosen(v.take(i as int), strain_name@, false);
        let ghost kept = chosen(v.take(i as int), strain_name@, true);
        proof {
            assert(v.take(i + 1).drop_last() =~= v.take(i as int));
            assert(v.take(i + 1).last() == s@);
        }
        if same_text(s.strain.as_str(), strain_name) {
            let protected: bool = match &s.metadata {
                Some(m) => m.protected,
                None => false,
            };
            let token: String = s.id.as_str().to_owned();
            if protected {
                proof {
                    lemma_views_push(skipped@, token);
                    assert(ids_of(kept.push(s@)) =~= ids_of(kept).push(token@));
                }
                skipped.push(token);
            } else {
                let ghost b = backend.state();
                match delete_snapshot(config, backend, toplevel, s) {
                    Ok(_) => {
                        proof {
                            lemma_deleted_push(
                                a,
                                b,
                                backend.state(),
                                config@,
                                toplevel@,
                                done,
                                s@,
                                exact,
                            );
                            lemma_views_push(deleted@, token);
                            assert(ids_of(done.push(s@)) =~= ids_of(done).push(token@));
                        }
                        deleted.push(token);
                    },
                    Err(e) => {
                        proof {
                            let d = backend.state();
                            if exact {
                                lemma_deleted_weaken(a, b, config@, toplevel@, done);
                                let target = chosen(v, strain_name@, false);
                                if all_removable(a, config@, toplevel@, target) {
                                    lemma_chosen_has(v, strain_name@, i as int);
                                    let k = choose|k: int|
                                        0 <= k < target.len() && target[k] == s@;
                                    assert forall|j: int|
                                        0 <= j < s@.subvolumes.len() implies removable(
                                        b,
                                        #[trigger] info_paths(config@, toplevel@, s@)[j],
                                    ) by {
                                        assert(removable(
                                            a,
                                            info_paths(config@, toplevel@, target[k])[j],
                                        ));
                                    }
                                }
                            }
                            lemma_deleted_push(
                                a,
                                b,
                                d,
                                config@,
                                toplevel@,
                                done,
                                s@,
                                false,
                            );
                            lemma_chosen_deletable(v.take(i as int), strain_name@);
                            assert(all_deletable(done.push(s@), strain_name@));
                        }
                        return Err(e);
                    },
                }
            }
        }
        i = i + 1;
    }
    let out: Result<BulkDeleteOutcome> = Ok(
        BulkDeleteOutcome { deleted, skipped_protected: skipped },
    );
    proof {
        assert(v.take(v.len() as int) =~= v);
        lemma_chosen_deletable(v, strain_name@);
        let b = backend.state();
        if exact {
            lemma_deleted_weaken(a, b, config@, toplevel@, chosen(v, strain_name@, false));
            assert(bulk_deleted(a, b, config@, toplevel@, strain_name@, v, out->Ok_0));
        }
        assert(deleted_all(a, b, config@, toplevel@, chosen(v, strain_name@, false), false));
    }
    out
}

proof fn lemma_chosen_has(all: Seq<InfoView>, strain: Seq<char>, i: int)
    requires
        0 <= i < all.len(),
        all[i].strain == strain,
        !is_protected(all[i].metadata),
    ensures
        exists|k: int|
            0 <= k < chosen(all, strain, false).len() && chosen(all, strain, false)[k] == all[i],
    decreases all.len(),
{
    let rest = chosen(all.drop_last(), strain, false);
    let full = chosen(all, strain, false);
    if i == all.len() - 1 {
        assert(full[full.len() - 1] == all[i]);
    } else {
        lemma_chosen_has(all.drop_last(), strain, i);
        let k = choose|k: int| 0 <= k < rest.len() && rest[k] == all[i];
        assert(full[k] == all[i]);
    }
}

} // verus!
