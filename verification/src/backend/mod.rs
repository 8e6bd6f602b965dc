//! Copy-on-write filesystem operations behind a trait.
//!
//! A backend is modelled by a state: the subvolumes and the files by path.
//! Each operation says what it does to that state when it succeeds. A
//! *reliable* backend fails only where the operation's own rules say so; of
//! any other backend no success is promised.

pub mod btrfs;
pub mod effects;
pub mod mock;

use vstd::prelude::*;
use vstd::utf8::encode_utf8;

use crate::error::{ErrorView, Result};
use crate::path::{
    is_child, is_component, lemma_join_component, moved, parent_of, path_join, under, within,
    FsPath, PathView,
};

verus! {

/// A subvolume: its UUID, the UUID of the subvolume it is a snapshot of, and
/// whether it is read-only.
#[derive(Debug, Clone, Copy, PartialEq, Eq, Structural)]
pub struct Subvol {
    pub uuid: u128,
    pub parent_uuid: Option<u128>,
    pub readonly: bool,
}

/// What a filesystem holds: subvolumes and files, each by its path, and the
/// default subvolume.
pub struct FsState {
    pub subvols: Map<PathView, Subvol>,
    pub files: Map<PathView, Seq<char>>,
    pub default_subvol: Option<PathView>,
}

/// Information about a subvolume.
#[derive(Debug)]
pub struct SubvolumeInfo {
    pub id: u64,
    pub parent_id: u64,
    pub path: FsPath,
    pub uuid: u128,
    /// UUID of the subvolume that this one is a snapshot of, if any.
    pub parent_uuid: Option<u128>,
    pub readonly: bool,
}

impl SubvolumeInfo {
    /// The subvolume described.
    pub open spec fn record(self) -> Subvol {
        Subvol { uuid: self.uuid, parent_uuid: self.parent_uuid, readonly: self.readonly }
    }
}

/// Whether `info` describes the subvolume at `path`.
pub open spec fn describes(st: FsState, path: PathView, info: SubvolumeInfo) -> bool {
    &&& st.subvols.contains_key(path)
    &&& info.path@ == path
    &&& info.record() == st.subvols[path]
}

/// Whether `v` lists the direct children of `root` among the subvolumes, each
/// once.
pub open spec fn is_listing(st: FsState, root: PathView, v: Seq<SubvolumeInfo>) -> bool {
    &&& forall|i: int|
        0 <= i < v.len() ==> is_child((#[trigger] v[i]).path@, root) && describes(
            st,
            v[i].path@,
            v[i],
        )
    &&& forall|p: PathView| #[trigger]
        st.subvols.contains_key(p) && is_child(p, root) ==> exists|i: int|
            0 <= i < v.len() && (#[trigger] v[i]).path@ == p
    &&& forall|i: int, j: int|
        0 <= i < j < v.len() ==> (#[trigger] v[i]).path@ != (#[trigger] v[j]).path@
}

/// Whether the subvolume at `p` is nested directly inside `root`: no other
/// subvolume lies between them.
pub open spec fn is_nested(st: FsState, root: PathView, p: PathView) -> bool {
    &&& st.subvols.contains_key(p)
    &&& under(p, root)
    &&& forall|q: PathView| #[trigger]
        st.subvols.contains_key(q) && under(q, root) && within(p, q) ==> q == p
}

/// The paths of some path values.
pub open spec fn path_views(v: Seq<FsPath>) -> Seq<PathView> {
    Seq::new(v.len(), |i: int| v[i]@)
}

/// Whether `v` holds the subvolumes nested directly inside `root`, each once.
pub open spec fn is_nesting(st: FsState, root: PathView, v: Seq<PathView>) -> bool {
    &&& forall|i: int| 0 <= i < v.len() ==> is_nested(st, root, #[trigger] v[i])
    &&& forall|p: PathView| #[trigger] is_nested(st, root, p) ==> v.contains(p)
    &&& v.no_duplicates()
}

/// Whether nothing lies at `p` or inside it.
pub open spec fn vacant(st: FsState, p: PathView) -> bool {
    &&& forall|q: PathView| #[trigger] st.subvols.contains_key(q) ==> !within(q, p)
    &&& forall|q: PathView| #[trigger] st.files.contains_key(q) ==> !within(q, p)
}

/// Whether no subvolume lies strictly inside `p`.
pub open spec fn childless(st: FsState, p: PathView) -> bool {
    forall|q: PathView| #[trigger] st.subvols.contains_key(q) ==> !under(q, p)
}

/// Whether nothing stands in the way of removing what is at `p`: there is no
/// subvolume, or no other is nested in it.
pub open spec fn removable(st: FsState, p: PathView) -> bool {
    st.subvols.contains_key(p) ==> childless(st, p)
}

/// Whether the file at `p` belongs to the subvolume at `root` itself: it lies
/// inside it and in no subvolume nested in it.
pub open spec fn owned(st: FsState, root: PathView, p: PathView) -> bool {
    &&& st.files.contains_key(p)
    &&& under(p, root)
    &&& forall|q: PathView| #[trigger]
        st.subvols.contains_key(q) && under(q, root) ==> !within(p, q)
}

/// The files after a snapshot of `source` was made at `dest`: the files of
/// `source` itself appear under `dest`.
pub open spec fn with_copy(st: FsState, source: PathView, dest: PathView) -> Map<
    PathView,
    Seq<char>,
> {
    Map::new(
        |p: PathView|
            if within(p, dest) {
                within(p, dest) && owned(st, source, moved(p, dest, source))
            } else {
                st.files.contains_key(p)
            },
        |p: PathView|
            if within(p, dest) {
                st.files[moved(p, dest, source)]
            } else {
                st.files[p]
            },
    )
}

/// Whether a snapshot of `source` can be made at `dest`.
pub open spec fn can_snapshot(st: FsState, source: PathView, dest: PathView) -> bool {
    st.subvols.contains_key(source) && vacant(st, dest)
}

/// The state after the snapshot `info` of `source` was made at `dest`.
pub open spec fn with_snapshot(
    st: FsState,
    source: PathView,
    dest: PathView,
    uuid: u128,
    readonly: bool,
) -> FsState {
    FsState {
        subvols: st.subvols.insert(
            dest,
            Subvol { uuid, parent_uuid: Some(st.subvols[source].uuid), readonly },
        ),
        files: with_copy(st, source, dest),
        default_subvol: st.default_subvol,
    }
}

/// Whether `b` is what a failed attempt at a snapshot may leave of `a`: the
/// state as it was, or with the snapshot made but not to be read.
pub open spec fn after_failed_snapshot(
    a: FsState,
    b: FsState,
    source: PathView,
    dest: PathView,
    readonly: bool,
) -> bool {
    b == a || (can_snapshot(a, source, dest) && exists|uuid: u128|
        b == #[trigger] with_snapshot(a, source, dest, uuid, readonly))
}

/// The state after an empty subvolume was made at `path`.
pub open spec fn with_subvolume(st: FsState, path: PathView, uuid: u128) -> FsState {
    FsState {
        subvols: st.subvols.insert(path, Subvol { uuid, parent_uuid: None, readonly: false }),
        files: st.files,
        default_subvol: st.default_subvol,
    }
}

/// Whether the subvolume at `path` can be deleted.
pub open spec fn can_delete(st: FsState, path: PathView) -> bool {
    st.subvols.contains_key(path) && childless(st, path)
}

/// The entries that lie neither at `p` nor inside it.
pub open spec fn outside<V>(m: Map<PathView, V>, p: PathView) -> Map<PathView, V> {
    Map::new(|q: PathView| m.contains_key(q) && !within(q, p), |q: PathView| m[q])
}

/// The state without what lies at `p` or inside it.
pub open spec fn without(st: FsState, p: PathView) -> FsState {
    FsState {
        subvols: outside(st.subvols, p),
        files: outside(st.files, p),
        default_subvol: st.default_subvol,
    }
}

/// The entries after what lies at `from` or inside it was moved to `to`.
pub open spec fn renamed<V>(m: Map<PathView, V>, from: PathView, to: PathView) -> Map<PathView, V> {
    Map::new(
        |p: PathView|
            if within(p, to) {
                m.contains_key(moved(p, to, from))
            } else {
                m.contains_key(p) && !within(p, from)
            },
        |p: PathView|
            if within(p, to) {
                m[moved(p, to, from)]
            } else {
                m[p]
            },
    )
}

/// Whether the subvolume at `from` can be renamed to `to`.
pub open spec fn can_rename(st: FsState, from: PathView, to: PathView) -> bool {
    &&& st.subvols.contains_key(from)
    &&& !within(to, from)
    &&& forall|q: PathView| #[trigger] st.subvols.contains_key(q) ==> !within(q, to)
}

/// The state after the subvolume at `from` was renamed to `to`. What lies
/// inside it comes along.
pub open spec fn with_rename(st: FsState, from: PathView, to: PathView) -> FsState {
    FsState {
        subvols: renamed(st.subvols, from, to),
        files: renamed(st.files, from, to),
        default_subvol: st.default_subvol,
    }
}

/// Whether the states differ in no more than whether the subvolume at `path`
/// is read-only.
pub open spec fn same_tree(a: FsState, b: FsState, path: PathView) -> bool {
    &&& a.files == b.files
    &&& a.default_subvol == b.default_subvol
    &&& a.subvols.dom() == b.subvols.dom()
    &&& forall|p: PathView| #[trigger]
        a.subvols.contains_key(p) && p != path ==> b.subvols[p] == a.subvols[p]
    &&& a.subvols.contains_key(path) ==> b.subvols[path].uuid == a.subvols[path].uuid
        && b.subvols[path].parent_uuid == a.subvols[path].parent_uuid
}

/// Whether `d` is a directory: one of `dirs`, a subvolume, or where a subvolume
/// or a file lies.
pub open spec fn is_directory(st: FsState, dirs: Set<PathView>, d: PathView) -> bool {
    ||| dirs.contains(d)
    ||| exists|q: PathView| #[trigger] st.subvols.contains_key(q) && within(q, d)
    ||| exists|q: PathView| #[trigger] st.files.contains_key(q) && under(q, d)
}

/// Whether `p` has a directory to lie in.
pub open spec fn has_parent(st: FsState, dirs: Set<PathView>, p: PathView) -> bool {
    match parent_of(p) {
        Some(d) => is_directory(st, dirs, d),
        None => true,
    }
}

/// What is put into a directory under a plain name has a directory to lie in.
pub proof fn lemma_has_parent(st: FsState, dirs: Set<PathView>, dir: PathView, name: Seq<char>)
    requires
        is_component(name),
        is_directory(st, dirs, dir),
    ensures
        has_parent(st, dirs, path_join(dir, name)),
{
    reveal_strlit("/");
    lemma_join_component(dir, name);
    assert(dir.push(name).drop_last() =~= dir);
}

/// What is there has a directory to lie in.
pub proof fn lemma_present_has_parent(st: FsState, dirs: Set<PathView>, p: PathView)
    requires
        st.files.contains_key(p),
    ensures
        has_parent(st, dirs, p),
{
    if p.len() > 0 {
        assert(p.take(p.len() - 1) =~= p.drop_last());
        assert(under(p, p.drop_last()));
    }
}

/// Whether a file may be taken for unchanged: its text is as long in bytes.
pub open spec fn looks_same(s: Seq<char>, t: Seq<char>) -> bool {
    encode_utf8(s).len() == encode_utf8(t).len()
}

/// Whether an error can come from a filesystem: that parts of a snapshot are
/// missing is for the library to say.
pub open spec fn is_fs_fault(e: ErrorView) -> bool {
    !(e is IncompleteSnapshot)
}

/// Whether `b` is `a` after the files under `to` were made to mirror those
/// under `from`. A file as long as its counterpart may have been taken for
/// unchanged and left as it was.
pub open spec fn is_synced(a: FsState, b: FsState, from: PathView, to: PathView) -> bool {
    &&& b.subvols == a.subvols
    &&& b.default_subvol == a.default_subvol
    &&& forall|p: PathView|
        !under(p, to) ==> (#[trigger] b.files.contains_key(p) == a.files.contains_key(p))
    &&& forall|p: PathView|
        !under(p, to) && a.files.contains_key(p) ==> #[trigger] b.files[p] == a.files[p]
    &&& forall|p: PathView|
        under(p, to) ==> (#[trigger] b.files.contains_key(p) == a.files.contains_key(
            moved(p, to, from),
        ))
    &&& forall|p: PathView|
        under(p, to) && b.files.contains_key(p) ==> #[trigger] b.files[p] == a.files[moved(
            p,
            to,
            from,
        )] || (a.files.contains_key(p) && b.files[p] == a.files[p] && looks_same(
            a.files[p],
            a.files[moved(p, to, from)],
        ))
}

/// Abstraction over copy-on-write filesystem operations.
pub trait FileSystemBackend {
    /// What the filesystem holds. Left open unless an implementation says.
    closed spec fn state(&self) -> FsState {
        arbitrary()
    }

    /// The plain directories known to exist. Left open unless an
    /// implementation says.
    closed spec fn directories(&self) -> Set<PathView> {
        arbitrary()
    }

    /// Whether the backend fails only where an operation's own rules say so.
    closed spec fn reliable(&self) -> bool {
        arbitrary()
    }

    /// Check if the given path resides on a supported filesystem.
    fn probe(&self, path: &FsPath) -> (r: Result<bool>);

    /// List the subvolumes that are direct children of `root`.
    fn list_subvolumes(&self, root: &FsPath) -> (r: Result<Vec<SubvolumeInfo>>)
        ensures
            r matches Err(e) ==> is_fs_fault(e@),
            r matches Ok(v) ==> is_listing(self.state(), root@, v@),
            self.reliable() ==> r is Ok,
    ;

    /// Create a readonly snapshot of `source` at `dest`.
    fn create_readonly_snapshot(&mut self, source: &FsPath, dest: &FsPath) -> (r: Result<
        SubvolumeInfo,
    >)
        ensures
            r matches Err(e) ==> is_fs_fault(e@),
            final(self).reliable() == old(self).reliable(),
            r matches Ok(i) ==> can_snapshot(old(self).state(), source@, dest@) && final(self).state()
                == with_snapshot(old(self).state(), source@, dest@, i.uuid, true)
                && describes(final(self).state(), dest@, i),
            r is Err ==> after_failed_snapshot(
                old(self).state(),
                final(self).state(),
                source@,
                dest@,
                true,
            ),
            old(self).reliable() && can_snapshot(old(self).state(), source@, dest@) ==> r is Ok,
    ;

    /// Create a writable snapshot of `source` at `dest`.
    fn create_writable_snapshot(&mut self, source: &FsPath, dest: &FsPath) -> (r: Result<
        SubvolumeInfo,
    >)
        ensures
            r matches Err(e) ==> is_fs_fault(e@),
            final(self).reliable() == old(self).reliable(),
            r matches Ok(i) ==> can_snapshot(old(self).state(), source@, dest@) && final(self).state()
                == with_snapshot(old(self).state(), source@, dest@, i.uuid, false)
                && describes(final(self).state(), dest@, i),
            r is Err ==> after_failed_snapshot(
                old(self).state(),
                final(self).state(),
                source@,
                dest@,
                false,
            ),
            old(self).reliable() && can_snapshot(old(self).state(), source@, dest@) ==> r is Ok,
    ;

    /// Create a new empty subvolume at `path`.
    fn create_subvolume(&mut self, path: &FsPath) -> (r: Result<()>)
        ensures
            r matches Err(e) ==> is_fs_fault(e@),
            final(self).reliable() == old(self).reliable(),
            r is Ok ==> vacant(old(self).state(), path@) && exists|uuid: u128|
                final(self).state() == #[trigger] with_subvolume(old(self).state(), path@, uuid),
            r is Err ==> final(self).state() == old(self).state(),
            old(self).reliable() && vacant(old(self).state(), path@) ==> r is Ok,
    ;

    /// Delete a subvolume or snapshot at `path`. One that has subvolumes
    /// nested in it is refused.
    fn delete_subvolume(&mut self, path: &FsPath) -> (r: Result<()>)
        ensures
            r matches Err(e) ==> is_fs_fault(e@),
            final(self).reliable() == old(self).reliable(),
            r is Ok ==> can_delete(old(self).state(), path@) && final(self).state() == without(
                old(self).state(),
                path@,
            ),
            r is Err ==> same_tree(old(self).state(), final(self).state(), path@),
            old(self).reliable() && can_delete(old(self).state(), path@) ==> r is Ok,
    ;

    /// Rename a subvolume. What lies inside it comes along. The new place has
    /// to lie in a directory.
    fn rename_subvolume(&mut self, source: &FsPath, dest: &FsPath) -> (r: Result<()>)
        ensures
            r matches Err(e) ==> is_fs_fault(e@),
            final(self).reliable() == old(self).reliable(),
            r is Ok ==> can_rename(old(self).state(), source@, dest@) && final(self).state()
                == with_rename(old(self).state(), source@, dest@),
            r is Err ==> final(self).state() == old(self).state(),
            old(self).reliable() && can_rename(old(self).state(), source@, dest@) && has_parent(
                old(self).state(),
                old(self).directories(),
                dest@,
            ) ==> r is Ok,
    ;

    /// Get information about a subvolume at `path`.
    fn subvolume_info(&self, path: &FsPath) -> (r: Result<SubvolumeInfo>)
        ensures
            r matches Err(e) ==> is_fs_fault(e@),
            r matches Ok(i) ==> describes(self.state(), path@, i),
            self.reliable() && self.state().subvols.contains_key(path@) ==> r is Ok,
    ;

    /// Set the default subvolume for the filesystem.
    fn set_default_subvolume(&mut self, path: &FsPath) -> (r: Result<()>)
        ensures
            r matches Err(e) ==> is_fs_fault(e@),
            final(self).reliable() == old(self).reliable(),
            r is Ok ==> old(self).state().subvols.contains_key(path@) && final(self).state() == (
            FsState { default_subvol: Some(path@), ..old(self).state() }),
            r is Err ==> final(self).state() == old(self).state(),
            old(self).reliable() && old(self).state().subvols.contains_key(path@) ==> r is Ok,
    ;

    /// Create a directory at `path`, including any missing parents. Plain
    /// directories are kept apart from the state.
    fn create_dir_all(&mut self, path: &FsPath) -> (r: Result<()>)
        ensures
            r matches Err(e) ==> is_fs_fault(e@),
            final(self).reliable() == old(self).reliable(),
            final(self).state() == old(self).state(),
            old(self).directories().subset_of(final(self).directories()),
            r is Ok ==> forall|d: PathView| #[trigger]
                within(path@, d) ==> final(self).directories().contains(d),
            old(self).reliable() ==> r is Ok,
    ;

    /// Find the subvolumes nested directly inside `root`: the walk stops at
    /// every subvolume it meets. The tree walked is finite.
    fn find_nested_subvolumes(&self, root: &FsPath) -> (r: Result<Vec<FsPath>>)
        ensures
            r matches Err(e) ==> is_fs_fault(e@),
            r matches Ok(v) ==> is_nesting(self.state(), root@, path_views(v@))
                && self.state().subvols.dom().finite(),
            self.reliable() ==> r is Ok,
    ;

    /// Read the text file at `path`; `None` if there is none.
    fn read_file(&self, path: &FsPath) -> (r: Result<Option<String>>)
        ensures
            r matches Err(e) ==> is_fs_fault(e@),
            r matches Ok(Some(t)) ==> self.state().files.contains_key(path@)
                && self.state().files[path@] == t@,
            r matches Ok(None) ==> !self.state().files.contains_key(path@),
            self.reliable() ==> r is Ok,
    ;

    /// Write the text file at `path`, all of it or nothing. It has to lie in a
    /// directory.
    fn write_file(&mut self, path: &FsPath, text: &str) -> (r: Result<()>)
        ensures
            r matches Err(e) ==> is_fs_fault(e@),
            final(self).reliable() == old(self).reliable(),
            r is Ok ==> final(self).state() == (FsState {
                files: old(self).state().files.insert(path@, text@),
                ..old(self).state()
            }),
            old(self).directories().subset_of(final(self).directories()),
            r is Err ==> final(self).state() == old(self).state(),
            old(self).reliable() && has_parent(
                old(self).state(),
                old(self).directories(),
                path@,
            ) ==> r is Ok,
    ;

    /// Remove the file at `path`; says whether there was one.
    fn remove_file(&mut self, path: &FsPath) -> (r: Result<bool>)
        ensures
            r matches Err(e) ==> is_fs_fault(e@),
            final(self).reliable() == old(self).reliable(),
            r matches Ok(b) ==> b == old(self).state().files.contains_key(path@) && final(
                self).state() == (FsState {
                files: old(self).state().files.remove(path@),
                ..old(self).state()
            }),
            r is Err ==> final(self).state() == old(self).state(),
            old(self).reliable() ==> r is Ok,
    ;

    /// The names of the files directly in `dir`, each once.
    fn list_files(&self, dir: &FsPath) -> (r: Result<Vec<String>>)
        ensures
            r matches Err(e) ==> is_fs_fault(e@),
            r matches Ok(v) ==> (forall|n: Seq<char>|
                crate::text::views(v@).contains(n) <==> #[trigger] self.state().files.contains_key(
                    dir@.push(n),
                )) && crate::text::views(v@).no_duplicates(),
            self.reliable() ==> r is Ok,
    ;

    /// Make the files under `to` mirror those under `from`.
    fn sync_tree(&mut self, from: &FsPath, to: &FsPath) -> (r: Result<()>)
        ensures
            r matches Err(e) ==> is_fs_fault(e@),
            final(self).reliable() == old(self).reliable(),
            final(self).state().subvols == old(self).state().subvols,
            final(self).state().default_subvol == old(self).state().default_subvol,
            r is Ok ==> is_synced(old(self).state(), final(self).state(), from@, to@),
            forall|p: PathView|
                !under(p, to@) ==> (#[trigger] final(self).state().files.contains_key(p) == old(
                    self).state().files.contains_key(p)),
            forall|p: PathView|
                !under(p, to@) && old(self).state().files.contains_key(p) ==> #[trigger] final(
                    self).state().files[p] == old(self).state().files[p],
            old(self).reliable() && !within(from@, to@) && !within(to@, from@) ==> r is Ok,
    ;
}

/// Whether the given path is a subvolume on the backend.
pub fn subvol_exists<B: FileSystemBackend>(backend: &B, path: &FsPath) -> (r: bool)
    ensures
        r ==> backend.state().subvols.contains_key(path@),
        backend.reliable() ==> r == backend.state().subvols.contains_key(path@),
{
    backend.subvolume_info(path).is_ok()
}

} // verus!
