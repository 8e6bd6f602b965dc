//! Read-only mounts of snapshots for browsing.
//!
//! Which mounts there are, which have been idle for too long and what becomes
//! of them is decided here. The mounting itself is the caller's.

use vstd::prelude::*;
use vstd::string::*;

use crate::config::{Config, ConfigView};
use crate::daemon::mount::{device_of, device_path};
use crate::lines::{lines_of, split_lines, split_words, words};
use crate::path::is_absolute;
use crate::snapshot::id::name_text;
use crate::snapshot::info::{InfoView, SnapshotInfo};
use crate::text::{
    after_prefix, cat2, cat3, cat4, cat6, dec, decimal, has_prefix, lemma_views_push, same_text,
    split_first, split_once, strip_prefix, views,
};

verus! {

/// The directory of the users' runtime directories.
pub const RUN_USER_DIR: &'static str = "/run/user";

/// Where mounts lie below a user's runtime directory.
pub const MOUNT_SUBPATH: &'static str = "revenant/mounts";

/// How long a mount may sit untouched, in milliseconds.
pub const IDLE_TIMEOUT_MS: u64 = 1_800_000;

/// The directory of a user's mount of a snapshot.
pub open spec fn base_dir(uid: u32, strain: Seq<char>, id: Seq<char>) -> Seq<char> {
    "/run/user"@ + "/"@ + dec(uid as nat) + "/"@ + "revenant/mounts"@ + "/"@ + strain + "-"@ + id
}

/// The directory of a user's mount of a snapshot.
pub fn base_dir_for(uid: u32, strain: &str, id: &str) -> (r: String)
    ensures
        r@ == base_dir(uid, strain@, id@),
{
    let user = decimal(uid as u64);
    let head = cat6("/run/user", "/", user.as_str(), "/", "revenant/mounts", "/");
    cat4(head.as_str(), strain, "-", id)
}

/// The directories from below the user's runtime directory down to the mount
/// of a snapshot, which have to belong to the user.
pub open spec fn chain(uid: u32, strain: Seq<char>, id: Seq<char>) -> Seq<Seq<char>> {
    let user = "/run/user"@ + "/"@ + dec(uid as nat);
    seq![user + "/revenant"@, user + "/revenant/mounts"@, base_dir(uid, strain, id)]
}

/// The directories that have to belong to the user, outermost first. The
/// user's runtime directory itself is not among them.
pub fn owned_chain(uid: u32, strain: &str, id: &str) -> (r: Vec<String>)
    ensures
        views(r@) == chain(uid, strain@, id@),
{
    let n = decimal(uid as u64);
    let user = cat3("/run/user", "/", n.as_str());
    let mut out: Vec<String> = Vec::new();
    out.push(cat2(user.as_str(), "/revenant"));
    out.push(cat2(user.as_str(), "/revenant/mounts"));
    out.push(base_dir_for(uid, strain, id));
    assert(views(out@) =~= chain(uid, strain@, id@));
    out
}

/// Whether a path is one of a mount made for browsing.
pub open spec fn is_user_mount(p: Seq<char>) -> bool {
    match after_prefix(p, "/run/user/"@) {
        None => false,
        Some(rest) => match split_first(rest, '/') {
            None => false,
            Some(x) => "revenant/mounts/"@.is_prefix_of(x.1),
        },
    }
}

/// Whether a path is one of a mount made for browsing.
pub fn is_revenant_user_mount_path(p: &str) -> (r: bool)
    ensures
        r == is_user_mount(p@),
{
    match strip_prefix(p, "/run/user/") {
        None => false,
        Some(rest) => match split_once(rest, '/') {
            None => false,
            Some((_, tail)) => has_prefix(tail.as_str(), "revenant/mounts/"),
        },
    }
}

/// The mount points among the lines of `/proc/self/mountinfo` that were left
/// behind by an earlier run.
pub open spec fn stale_among(lines: Seq<Seq<char>>) -> Seq<Seq<char>>
    decreases lines.len(),
{
    if lines.len() == 0 {
        Seq::empty()
    } else {
        let before = stale_among(lines.drop_last());
        let w = words(lines.last());
        if w.len() > 4 && is_user_mount(w[4]) {
            before.push(w[4])
        } else {
            before
        }
    }
}

/// The mount points in `/proc/self/mountinfo` that were left behind by an
/// earlier run.
pub fn stale_mounts(mountinfo: &str) -> (r: Vec<String>)
    ensures
        views(r@) == stale_among(lines_of(mountinfo@)),
{
    let lines = split_lines(mountinfo);
    let ghost all = views(lines@);
    let mut out: Vec<String> = Vec::new();
    let mut i: usize = 0;
    assert(all.take(0) =~= Seq::empty());
    assert(views(out@) =~= stale_among(all.take(0)));
    while i < lines.len()
        invariant
            i <= lines.len(),
            all == views(lines@),
            views(out@) == stale_among(all.take(i as int)),
        decreases lines.len() - i,
    {
        proof {
            assert(all.take(i + 1).drop_last() =~= all.take(i as int));
            assert(all.take(i + 1).last() == lines@[i as int]@);
        }
        let w = split_words(lines[i].as_str());
        assert(views(w@).len() == w@.len());
        if w.len() > 4 {
            assert(views(w@)[4] == w@[4]@);
            if is_revenant_user_mount_path(w[4].as_str()) {
                let ghost before = out@;
                let mp: String = w[4].clone();
                proof {
                    lemma_views_push(before, mp);
                }
                out.push(mp);
            }
        }
        i = i + 1;
    }
    assert(all.take(i as int) =~= all);
    out
}

/// A subvolume of a snapshot and where it is mounted.
#[derive(Debug)]
pub struct MountedSubvol {
    pub name: String,
    pub path: String,
}

/// A subvolume to be mounted: the option that selects it, and where to.
#[derive(Debug)]
pub struct MountStep {
    pub name: String,
    pub option: String,
    pub path: String,
}

/// What mounting a snapshot takes.
#[derive(Debug)]
pub struct MountPlan {
    pub device: String,
    pub base_dir: String,
    pub owned: Vec<String>,
    pub steps: Vec<MountStep>,
}

/// Whether `s` mounts the subvolume `name` of a snapshot.
pub open spec fn is_step(
    s: MountStep,
    c: ConfigView,
    snap: InfoView,
    base: Seq<char>,
    name: Seq<char>,
) -> bool {
    &&& s.name@ == name
    &&& s.option@ == "subvol="@ + c.sys.snapshot_subvol + "/"@ + name_text(
        name,
        snap.strain,
        snap.id,
    )
    &&& s.path@ == mount_point(base, name)
}

/// Where the subvolume `name` is mounted: below `base`, unless the name is an
/// absolute path itself.
pub open spec fn mount_point(base: Seq<char>, name: Seq<char>) -> Seq<char> {
    if is_absolute(name) {
        name
    } else {
        base + "/"@ + name
    }
}

/// Plan the mount of every subvolume of a snapshot for a user.
pub fn plan_mount(config: &Config, snapshot: &SnapshotInfo, uid: u32) -> (r: MountPlan)
    ensures
        plans(r, config@, snapshot@, uid),
{
    let base = base_dir_for(uid, snapshot.strain.as_str(), snapshot.id.as_str());
    let mut steps: Vec<MountStep> = Vec::new();
    let mut i: usize = 0;
    while i < snapshot.subvolumes.len()
        invariant
            i <= snapshot.subvolumes@.len(),
            base@ == base_dir(uid, snapshot@.strain, snapshot@.id),
            steps@.len() == i,
            forall|j: int|
                0 <= j < i ==> is_step(
                    #[trigger] steps@[j],
                    config@,
                    snapshot@,
                    base@,
                    snapshot@.subvolumes[j],
                ),
        decreases snapshot.subvolumes.len() - i,
    {
        let name = snapshot.subvolumes[i].as_str();
        let part = snapshot.id.snapshot_name(name, snapshot.strain.as_str());
        assert(snapshot@.subvolumes[i as int] == name@);
        proof {
            reveal_strlit("/");
            assert("/"@ =~= seq!['/']);
            if is_absolute(name@) {
                assert(name@.subrange(0, 1) =~= "/"@);
            } else if "/"@.is_prefix_of(name@) {
                assert(name@.subrange(0, 1)[0] == '/');
            }
        }
        steps.push(
            MountStep {
                name: name.to_owned(),
                option: cat4(
                    "subvol=",
                    config.sys.snapshot_subvol.as_str(),
                    "/",
                    part.as_str(),
                ),
                path: if has_prefix(name, "/") {
                    name.to_owned()
                } else {
                    cat3(base.as_str(), "/", name)
                },
            },
        );
        i = i + 1;
    }
    MountPlan {
        device: device_path(config.sys.rootfs.device_uuid.as_str()),
        owned: owned_chain(uid, snapshot.strain.as_str(), snapshot.id.as_str()),
        base_dir: base,
        steps,
    }
}

/// One snapshot's active mount.
#[derive(Debug)]
pub struct ActiveMount {
    pub strain: String,
    pub id: String,
    pub base_dir: String,
    pub subvols: Vec<MountedSubvol>,
    /// When it was last asked for, in milliseconds.
    pub last_active: u64,
}

/// The mounts there are. No snapshot occurs twice.
#[derive(Debug)]
pub struct SnapshotMountManager {
    mounts: Vec<ActiveMount>,
}

/// Whether a mount is that of the given snapshot.
pub open spec fn is_of(m: ActiveMount, strain: Seq<char>, id: Seq<char>) -> bool {
    m.strain@ == strain && m.id@ == id
}

/// Whether no two mounts are of the same snapshot.
pub open spec fn distinct_mounts(v: Seq<ActiveMount>) -> bool {
    forall|i: int, j: int|
        0 <= i < j < v.len() ==> !((#[trigger] v[i]).strain@ == (#[trigger] v[j]).strain@
            && v[i].id@ == v[j].id@)
}

/// Whether some mount is that of the given snapshot.
pub open spec fn mounted(v: Seq<ActiveMount>, strain: Seq<char>, id: Seq<char>) -> bool {
    exists|i: int| 0 <= i < v.len() && #[trigger] is_of(v[i], strain, id)
}

/// What became of an attempt to unmount.
#[derive(Debug, Clone, Copy, PartialEq, Eq, Structural)]
pub enum Unmounted {
    Done,
    /// Still in use.
    Busy,
    /// Not a mount point any more.
    Gone,
    Failed,
}

/// Whether an attempt that was to unmount something failed. What is gone
/// already counts as unmounted.
pub open spec fn some_failed(v: Seq<Unmounted>) -> bool {
    exists|i: int|
        0 <= i < v.len() && (#[trigger] v[i] == Unmounted::Busy || v[i] == Unmounted::Failed)
}

/// Whether some attempt found the mount in use.
pub open spec fn some_busy(v: Seq<Unmounted>) -> bool {
    exists|i: int| 0 <= i < v.len() && #[trigger] v[i] == Unmounted::Busy
}

/// Whether unmounting a snapshot succeeded.
pub fn all_unmounted(outcomes: &Vec<Unmounted>) -> (r: bool)
    ensures
        r == !some_failed(outcomes@),
{
    let mut i: usize = 0;
    while i < outcomes.len()
        invariant
            i <= outcomes.len(),
            forall|j: int|
                0 <= j < i ==> #[trigger] outcomes@[j] != Unmounted::Busy && outcomes@[j]
                    != Unmounted::Failed,
        decreases outcomes.len() - i,
    {
        if outcomes[i] == Unmounted::Busy || outcomes[i] == Unmounted::Failed {
            return false;
        }
        i = i + 1;
    }
    true
}

impl SnapshotMountManager {
    /// The mounts there are.
    pub closed spec fn view(&self) -> Seq<ActiveMount> {
        self.mounts@
    }

    /// Whether no snapshot occurs twice.
    pub open spec fn wf(&self) -> bool {
        distinct_mounts(self@)
    }

    /// No mounts.
    pub fn new() -> (r: Self)
        ensures
            r@.len() == 0,
            r.wf(),
    {
        SnapshotMountManager { mounts: Vec::new() }
    }

    /// The mounts there are.
    pub fn mounts(&self) -> (r: &Vec<ActiveMount>)
        ensures
            r@ == self@,
    {
        &self.mounts
    }

    fn position(&self, strain: &str, id: &str) -> (r: Option<usize>)
        ensures
            match r {
                Some(i) => i < self@.len() && is_of(self@[i as int], strain@, id@),
                None => !mounted(self@, strain@, id@),
            },
    {
        let mut i: usize = 0;
        while i < self.mounts.len()
            invariant
                i <= self.mounts@.len(),
                forall|j: int| 0 <= j < i ==> !#[trigger] is_of(self@[j], strain@, id@),
            decreases self.mounts.len() - i,
        {
            if same_text(self.mounts[i].strain.as_str(), strain) && same_text(
                self.mounts[i].id.as_str(),
                id,
            ) {
                return Some(i);
            }
            i = i + 1;
        }
        None
    }

    /// Ask for the mount of a snapshot at `now`. If it is there, it counts as
    /// active again, and where its subvolumes are mounted is given. If not, what
    /// mounting it takes is given.
    pub fn mount_snapshot(
        &mut self,
        config: &Config,
        snapshot: &SnapshotInfo,
        uid: u32,
        now: u64,
    ) -> (r: MountRequest)
        requires
            old(self).wf(),
        ensures
            final(self).wf(),
            final(self)@ == touched(old(self)@, snapshot@.strain, snapshot@.id, now),
            match r {
                MountRequest::Mounted(v) => exists|i: int|
                    0 <= i < old(self)@.len() && #[trigger] is_of(
                        old(self)@[i],
                        snapshot@.strain,
                        snapshot@.id,
                    ) && subvol_views(v@) == subvol_views(old(self)@[i].subvols@),
                MountRequest::Needed(p) => !mounted(
                    old(self)@,
                    snapshot@.strain,
                    snapshot@.id,
                ) && plans(p, config@, snapshot@, uid),
            },
    {
        let strain = snapshot.strain.as_str();
        let id = snapshot.id.as_str();
        let ghost before = self@;
        match self.position(strain, id) {
            None => {
                assert(touched(before, strain@, id@, now) =~= before) by {
                    assert forall|i: int| 0 <= i < before.len() implies touched(
                        before,
                        strain@,
                        id@,
                        now,
                    )[i] == before[i] by {
                        assert(!is_of(before[i], strain@, id@));
                    }
                }
                MountRequest::Needed(plan_mount(config, snapshot, uid))
            },
            Some(i) => {
                self.mounts[i].last_active = now;
                proof {
                    assert(is_of(before[i as int], strain@, id@));
                    lemma_touched(before, self@, i as int, strain@, id@, now);
                }
                let paths = clone_subvols(&self.mounts[i].subvols);
                assert(subvol_views(paths@) == subvol_views(before[i as int].subvols@));
                MountRequest::Mounted(paths)
            },
        }
    }

    /// Note that a snapshot was mounted at `now`.
    pub fn mounted_now(&mut self, mount: ActiveMount)
        requires
            old(self).wf(),
            !mounted(old(self)@, mount.strain@, mount.id@),
        ensures
            final(self).wf(),
            final(self)@ == old(self)@.push(mount),
            mounted(final(self)@, mount.strain@, mount.id@),
    {
        let ghost before = self@;
        self.mounts.push(mount);
        proof {
            assert(is_of(self@[before.len() as int], mount.strain@, mount.id@));
            assert forall|i: int, j: int| 0 <= i < j < self@.len() implies !((
            #[trigger] self@[i]).strain@ == (#[trigger] self@[j]).strain@ && self@[i].id@
                == self@[j].id@) by {
                if j == before.len() {
                    assert(!is_of(before[i], mount.strain@, mount.id@));
                }
            }
        }
    }

    /// Forget the mount of a snapshot. It is given for unmounting; `None` where
    /// there was none.
    pub fn unmount_snapshot(&mut self, strain: &str, id: &str) -> (r: Option<ActiveMount>)
        requires
            old(self).wf(),
        ensures
            final(self).wf(),
            !mounted(final(self)@, strain@, id@),
            match r {
                Some(m) => exists|i: int|
                    0 <= i < old(self)@.len() && #[trigger] is_of(old(self)@[i], strain@, id@)
                        && m == old(self)@[i] && final(self)@ == old(self)@.remove(i),
                None => !mounted(old(self)@, strain@, id@) && final(self)@ == old(self)@,
            },
    {
        match self.position(strain, id) {
            None => None,
            Some(i) => {
                let ghost before = self@;
                let m = self.mounts.remove(i);
                proof {
                    assert(is_of(before[i as int], strain@, id@));
                    lemma_removed(before, i as int);
                    let out: Option<ActiveMount> = Some(m);
                    assert(self@ == before.remove(i as int));
                }
                Some(m)
            },
        }
    }

    /// The snapshots whose mounts have been idle for too long at `now`.
    pub fn idle_sweep(&self, now: u64) -> (r: Vec<MountKey>)
        ensures
            key_views(r@) == idle_keys(self@, now),
    {
        let ghost v = self@;
        let mut out: Vec<MountKey> = Vec::new();
        let mut i: usize = 0;
        assert(v.take(0) =~= Seq::empty());
        assert(key_views(out@) =~= idle_keys(v.take(0), now));
        while i < self.mounts.len()
            invariant
                i <= self.mounts@.len(),
                v == self.mounts@,
                key_views(out@) == idle_keys(v.take(i as int), now),
            decreases self.mounts.len() - i,
        {
            let m = &self.mounts[i];
            proof {
                assert(v.take(i + 1).drop_last() =~= v.take(i as int));
                assert(v.take(i + 1).last() == m);
            }
            if now >= m.last_active && now - m.last_active >= IDLE_TIMEOUT_MS {
                let ghost before = out@;
                out.push(MountKey { strain: m.strain.clone(), id: m.id.clone() });
                assert(key_views(out@) =~= key_views(before).push((m.strain@, m.id@)));
            }
            i = i + 1;
        }
        assert(v.take(i as int) =~= v);
        out
    }

    /// Take what became of unmounting an idle snapshot. One still in use counts
    /// as active at `now`; any other is forgotten and given, so that its
    /// directory can be removed.
    pub fn settle(&mut self, strain: &str, id: &str, outcomes: &Vec<Unmounted>, now: u64) -> (r:
        Option<ActiveMount>)
        requires
            old(self).wf(),
        ensures
            final(self).wf(),
            some_busy(outcomes@) ==> r is None && final(self)@ == touched(
                old(self)@,
                strain@,
                id@,
                now,
            ),
            !some_busy(outcomes@) ==> !mounted(final(self)@, strain@, id@) && (match r {
                Some(m) => exists|i: int|
                    0 <= i < old(self)@.len() && #[trigger] is_of(old(self)@[i], strain@, id@)
                        && m == old(self)@[i] && final(self)@ == old(self)@.remove(i),
                None => !mounted(old(self)@, strain@, id@) && final(self)@ == old(self)@,
            }),
    {
        let mut busy = false;
        let mut i: usize = 0;
        while i < outcomes.len()
            invariant
                i <= outcomes.len(),
                busy ==> some_busy(outcomes@),
                !busy ==> forall|j: int| 0 <= j < i ==> #[trigger] outcomes@[j] != Unmounted::Busy,
            decreases outcomes.len() - i,
        {
            if outcomes[i] == Unmounted::Busy {
                assert(outcomes@[i as int] == Unmounted::Busy);
                busy = true;
            }
            i = i + 1;
        }
        if !busy {
            return self.unmount_snapshot(strain, id);
        }
        let ghost before = self@;
        match self.position(strain, id) {
            None => {
                assert(touched(before, strain@, id@, now) =~= before) by {
                    assert forall|k: int| 0 <= k < before.len() implies touched(
                        before,
                        strain@,
                        id@,
                        now,
                    )[k] == before[k] by {
                        assert(!is_of(before[k], strain@, id@));
                    }
                }
            },
            Some(k) => {
                self.mounts[k].last_active = now;
                proof {
                    lemma_touched(before, self@, k as int, strain@, id@, now);
                }
            },
        }
        None
    }

    /// Forget all mounts. They are given for unmounting.
    pub fn shutdown(&mut self) -> (r: Vec<ActiveMount>)
        ensures
            r@ == old(self)@,
            final(self)@.len() == 0,
            final(self).wf(),
    {
        let mut out: Vec<ActiveMount> = Vec::new();
        let ghost before = self@;
        out.append(&mut self.mounts);
        assert(out@ =~= before);
        out
    }
}

/// The mounts after that of a snapshot was asked for at `now`.
pub open spec fn touched(v: Seq<ActiveMount>, strain: Seq<char>, id: Seq<char>, now: u64) -> Seq<
    ActiveMount,
> {
    Seq::new(
        v.len(),
        |i: int|
            if is_of(v[i], strain, id) {
                ActiveMount { last_active: now, ..v[i] }
            } else {
                v[i]
            },
    )
}

/// What is needed for the mount of a snapshot: nothing, as it is there, or what
/// mounting it takes.
#[derive(Debug)]
pub enum MountRequest {
    Mounted(Vec<MountedSubvol>),
    Needed(MountPlan),
}

/// Some mounted subvolumes with their texts.
pub open spec fn subvol_views(v: Seq<MountedSubvol>) -> Seq<(Seq<char>, Seq<char>)> {
    Seq::new(v.len(), |i: int| (v[i].name@, v[i].path@))
}

/// Where the subvolumes of a snapshot are mounted.
pub fn clone_subvols(v: &Vec<MountedSubvol>) -> (r: Vec<MountedSubvol>)
    ensures
        subvol_views(r@) == subvol_views(v@),
{
    let mut out: Vec<MountedSubvol> = Vec::new();
    let mut i: usize = 0;
    while i < v.len()
        invariant
            i <= v.len(),
            out@.len() == i,
            forall|j: int|
                0 <= j < i ==> (#[trigger] out@[j]).name@ == v@[j].name@ && out@[j].path@
                    == v@[j].path@,
        decreases v.len() - i,
    {
        out.push(MountedSubvol { name: v[i].name.clone(), path: v[i].path.clone() });
        i = i + 1;
    }
    assert(subvol_views(out@) =~= subvol_views(v@));
    out
}

/// Whether a plan is the one for mounting a snapshot for a user.
pub open spec fn plans(p: MountPlan, c: ConfigView, snap: InfoView, uid: u32) -> bool {
    &&& p.device@ == device_of(c.sys.device_uuid)
    &&& p.base_dir@ == base_dir(uid, snap.strain, snap.id)
    &&& views(p.owned@) == chain(uid, snap.strain, snap.id)
    &&& p.steps@.len() == snap.subvolumes.len()
    &&& forall|i: int|
        0 <= i < p.steps@.len() ==> is_step(
            #[trigger] p.steps@[i],
            c,
            snap,
            p.base_dir@,
            snap.subvolumes[i],
        )
}

/// What to do next while a plan is carried out.
#[derive(Debug)]
pub enum MountAction {
    /// Make the directory `path` and mount the subvolume there.
    Mount { option: String, path: String },
    /// Unmount these places and remove `base_dir`: the plan has failed.
    Undo { points: Vec<String>, base_dir: String },
    /// All is mounted.
    Finished { subvols: Vec<MountedSubvol> },
}

/// The subvolumes that the first `n` steps of a plan mount, and where.
pub open spec fn step_views(p: MountPlan, n: nat) -> Seq<(Seq<char>, Seq<char>)> {
    Seq::new(n, |i: int| (p.steps@[i].name@, p.steps@[i].path@))
}

/// The places where the first `n` steps of a plan mount.
pub open spec fn step_points(p: MountPlan, n: nat) -> Seq<Seq<char>> {
    Seq::new(n, |i: int| p.steps@[i].path@)
}

/// What to do next while a plan is carried out: `done` steps are, and if the
/// one after them has failed, they are undone. So in the end all subvolumes of
/// a snapshot are mounted or none is.
pub fn next_action(plan: &MountPlan, done: usize, failed: bool) -> (r: MountAction)
    requires
        done <= plan.steps@.len(),
    ensures
        match r {
            MountAction::Undo { points, base_dir } => failed && views(points@) == step_points(
                *plan,
                done as nat,
            ) && base_dir@ == plan.base_dir@,
            MountAction::Mount { option, path } => !failed && done < plan.steps@.len() && option@
                == plan.steps@[done as int].option@ && path@ == plan.steps@[done as int].path@,
            MountAction::Finished { subvols } => !failed && done == plan.steps@.len()
                && subvol_views(subvols@) == step_views(*plan, done as nat),
        },
{
    if failed {
        let mut points: Vec<String> = Vec::new();
        let mut i: usize = 0;
        assert(views(points@) =~= step_points(*plan, 0));
        while i < done
            invariant
                i <= done <= plan.steps@.len(),
                views(points@) == step_points(*plan, i as nat),
            decreases done - i,
        {
            let point: String = plan.steps[i].path.clone();
            proof {
                lemma_views_push(points@, point);
                assert(step_points(*plan, (i + 1) as nat) =~= step_points(*plan, i as nat).push(
                    point@,
                ));
            }
            points.push(point);
            i = i + 1;
        }
        return MountAction::Undo { points, base_dir: plan.base_dir.clone() };
    }
    if done < plan.steps.len() {
        return MountAction::Mount {
            option: plan.steps[done].option.clone(),
            path: plan.steps[done].path.clone(),
        };
    }
    let mut subvols: Vec<MountedSubvol> = Vec::new();
    let mut i: usize = 0;
    assert(subvol_views(subvols@) =~= step_views(*plan, 0));
    while i < done
        invariant
            i <= done <= plan.steps@.len(),
            subvol_views(subvols@) == step_views(*plan, i as nat),
        decreases done - i,
    {
        let s = &plan.steps[i];
        let ghost before = subvols@;
        subvols.push(MountedSubvol { name: s.name.clone(), path: s.path.clone() });
        i = i + 1;
        proof {
            assert(subvols@.drop_last() =~= before);
            assert(subvol_views(subvols@) =~= subvol_views(before).push((s.name@, s.path@)));
            assert(step_views(*plan, i as nat) =~= step_views(*plan, (i - 1) as nat).push(
                (s.name@, s.path@),
            ));
        }
    }
    MountAction::Finished { subvols }
}

/// A snapshot with a mount.
#[derive(Debug)]
pub struct MountKey {
    pub strain: String,
    pub id: String,
}

/// Some snapshots with their texts.
pub open spec fn key_views(v: Seq<MountKey>) -> Seq<(Seq<char>, Seq<char>)> {
    Seq::new(v.len(), |i: int| (v[i].strain@, v[i].id@))
}

/// The snapshots whose mounts have been idle for too long at `now`.
pub open spec fn idle_keys(v: Seq<ActiveMount>, now: u64) -> Seq<(Seq<char>, Seq<char>)>
    decreases v.len(),
{
    if v.len() == 0 {
        Seq::empty()
    } else {
        let before = idle_keys(v.drop_last(), now);
        if now - v.last().last_active >= IDLE_TIMEOUT_MS {
            before.push((v.last().strain@, v.last().id@))
        } else {
            before
        }
    }
}

proof fn lemma_removed(v: Seq<ActiveMount>, i: int)
    requires
        distinct_mounts(v),
        0 <= i < v.len(),
    ensures
        distinct_mounts(v.remove(i)),
        !mounted(v.remove(i), v[i].strain@, v[i].id@),
{
    let w = v.remove(i);
    assert forall|a: int, b: int| 0 <= a < b < w.len() implies !((#[trigger] w[a]).strain@ == (
    #[trigger] w[b]).strain@ && w[a].id@ == w[b].id@) by {
        let x = if a < i {
            a
        } else {
            a + 1
        };
        let y = if b < i {
            b
        } else {
            b + 1
        };
        assert(w[a] == v[x]);
        assert(w[b] == v[y]);
    }
    assert forall|a: int| 0 <= a < w.len() implies !#[trigger] is_of(
        w[a],
        v[i].strain@,
        v[i].id@,
    ) by {
        if a < i {
            assert(w[a] == v[a]);
            assert(!(v[a].strain@ == v[i].strain@ && v[a].id@ == v[i].id@));
        } else {
            assert(w[a] == v[a + 1]);
            assert(!(v[i].strain@ == v[a + 1].strain@ && v[i].id@ == v[a + 1].id@));
        }
    }
}

proof fn lemma_touched(
    a: Seq<ActiveMount>,
    b: Seq<ActiveMount>,
    k: int,
    strain: Seq<char>,
    id: Seq<char>,
    now: u64,
)
    requires
        distinct_mounts(a),
        0 <= k < a.len(),
        is_of(a[k], strain, id),
        b == a.update(k, ActiveMount { last_active: now, ..a[k] }),
    ensures
        b == touched(a, strain, id, now),
        distinct_mounts(b),
{
    assert forall|j: int| 0 <= j < a.len() implies b[j] == #[trigger] touched(
        a,
        strain,
        id,
        now,
    )[j] by {
        if j < k {
            assert(!(a[j].strain@ == a[k].strain@ && a[j].id@ == a[k].id@));
        } else if j > k {
            assert(!(a[k].strain@ == a[j].strain@ && a[k].id@ == a[j].id@));
        }
    }
    assert(b =~= touched(a, strain, id, now));
    assert forall|i: int, j: int| 0 <= i < j < b.len() implies !((#[trigger] b[i]).strain@ == (
    #[trigger] b[j]).strain@ && b[i].id@ == b[j].id@) by {
        assert(!(a[i].strain@ == a[j].strain@ && a[i].id@ == a[j].id@));
    }
}

/// Only a mount that nobody asked for within the timeout is given up.
pub proof fn law_recent_mounts_stay(v: Seq<ActiveMount>, now: u64, i: int)
    requires
        distinct_mounts(v),
        0 <= i < v.len(),
    ensures
        idle_keys(v, now).contains((v[i].strain@, v[i].id@)) <==> now - v[i].last_active
            >= IDLE_TIMEOUT_MS,
    decreases v.len(),
{
    let init = v.drop_last();
    let before = idle_keys(init, now);
    let all = idle_keys(v, now);
    let key = (v[i].strain@, v[i].id@);
    assert forall|a: int, b: int| 0 <= a < b < init.len() implies !((
    #[trigger] init[a]).strain@ == (#[trigger] init[b]).strain@ && init[a].id@ == init[b].id@) by {
        assert(!(v[a].strain@ == v[b].strain@ && v[a].id@ == v[b].id@));
    }
    if i < init.len() {
        law_recent_mounts_stay(init, now, i);
        assert(!(v[i].strain@ == v.last().strain@ && v[i].id@ == v.last().id@));
        if before.contains(key) {
            let k = choose|k: int| 0 <= k < before.len() && before[k] == key;
            assert(all[k] == key);
        }
        if all.contains(key) {
            let k = choose|k: int| 0 <= k < all.len() && all[k] == key;
            if k == before.len() {
                assert(key.0 == v.last().strain@ && key.1 == v.last().id@);
            }
            assert(before[k] == key);
        }
    } else {
        lemma_idle_member(init, now, key);
        if before.contains(key) {
            let j = choose|j: int| 0 <= j < init.len() && #[trigger] is_of(init[j], key.0, key.1);
            assert(!(v[j].strain@ == v[i].strain@ && v[j].id@ == v[i].id@));
        }
        if now - v[i].last_active >= IDLE_TIMEOUT_MS {
            assert(all[before.len() as int] == key);
        }
    }
}

proof fn lemma_idle_member(v: Seq<ActiveMount>, now: u64, key: (Seq<char>, Seq<char>))
    ensures
        idle_keys(v, now).contains(key) ==> mounted(v, key.0, key.1),
    decreases v.len(),
{
    if v.len() > 0 && idle_keys(v, now).contains(key) {
        let init = v.drop_last();
        lemma_idle_member(init, now, key);
        let before = idle_keys(init, now);
        let all = idle_keys(v, now);
        let k = choose|k: int| 0 <= k < all.len() && all[k] == key;
        if k < before.len() {
            assert(before[k] == key);
            let j = choose|j: int| 0 <= j < init.len() && #[trigger] is_of(init[j], key.0, key.1);
            assert(is_of(v[j], key.0, key.1));
        } else {
            assert(is_of(v[v.len() - 1], key.0, key.1));
        }
    }
}

} // verus!
