//! Applying the retention policy, or planning to.

use vstd::prelude::*;
use vstd::string::*;

use crate::assoc::{distinct_keys, lemma_lookup_distinct, lemma_lookup_index, lookup};
use crate::backend::effects::gone;
use crate::backend::{FileSystemBackend, FsState};
use crate::cleanup::tombstones::{
    child_paths, expired_names, is_expired, is_marker, list_tombstones, lists_tombstones,
    only_markers_purged, purge_all_tombstones, purge_expired_tombstones, tombstone_views,
    Tombstone, TombstoneView,
};
use crate::clock::{utc_now, Moment};
use crate::config::{strain_views, Config, ConfigView, RetainConfig, StrainEntry, StrainView};
use crate::error::Result;
use crate::metadata::{
    are_orphans, find_orphaned_sidecars, is_orphan, is_protected, orphan_names,
    strictly_ascending,
};
use crate::path::{FsPath, PathView};
use crate::retention::{
    info_ids, is_kept, keep_reasons, law_protected_is_kept, newest_first, reasons_in, ref_views,
    select_to_keep, select_to_keep_explained, sort_newest_first, KeepReason,
};
use crate::snapshot::discovery::{discover_snapshots, discovered, is_discovery, may_discover};
use crate::snapshot::id::SnapshotId;
use crate::snapshot::info::{infos, snap_dir_of, snapshot_dir, InfoView, SnapshotInfo};
use crate::snapshot::operations::{
    all_removable, deleted_all, delete_snapshot, ids_of, info_paths, lemma_deleted_none,
    lemma_deleted_push, lemma_deleted_weaken,
};
use crate::text::{
    contains_text, lemma_text_less_total, lemma_text_less_transitive, lemma_views_push, precedes,
    same_text, text_less, views,
};

verus! {

/// What the retention policy would do, without touching the filesystem.
#[derive(Debug)]
pub struct RetentionPlan {
    /// One entry per configured strain, sorted by strain name.
    pub strains: Vec<StrainPlan>,
    /// Every tombstone at the top level, each with whether the next cleanup
    /// would purge it.
    pub tombstones: Vec<PlanTombstone>,
}

/// A [`Tombstone`] with the decision that cleanup would take on it.
#[derive(Debug)]
pub struct PlanTombstone {
    pub tombstone: Tombstone,
    /// Would the next cleanup purge this tombstone right now?
    pub would_purge: bool,
}

/// Retention plan for a single strain.
#[derive(Debug)]
pub struct StrainPlan {
    pub strain: String,
    /// The strain's effective retention rules.
    pub retain: RetainConfig,
    /// Snapshots of this strain, newest first.
    pub entries: Vec<PlanEntry>,
}

/// One row in a [`StrainPlan`].
#[derive(Debug)]
pub struct PlanEntry {
    pub id: SnapshotId,
    pub action: PlanAction,
}

/// Decision and justification for a single snapshot in the plan.
#[derive(Debug)]
pub enum PlanAction {
    /// Snapshot is protected by one or more retention rules.
    Keep { reasons: Vec<KeepReason> },
    /// Snapshot matches no retention rule and would be removed.
    Delete,
}

/// A decision with its reasons.
pub enum ActionView {
    Keep(Seq<KeepReason>),
    Delete,
}

/// A row of a plan with its texts.
pub struct EntryView {
    pub id: Seq<char>,
    pub action: ActionView,
}

/// A strain's plan with its texts.
pub struct StrainPlanView {
    pub strain: Seq<char>,
    pub retain: RetainConfig,
    pub entries: Seq<EntryView>,
}

impl View for PlanAction {
    type V = ActionView;

    open spec fn view(&self) -> ActionView {
        match self {
            PlanAction::Keep { reasons } => ActionView::Keep(reasons@),
            PlanAction::Delete => ActionView::Delete,
        }
    }
}

impl View for PlanEntry {
    type V = EntryView;

    open spec fn view(&self) -> EntryView {
        EntryView { id: self.id@, action: self.action@ }
    }
}

/// The rows of a plan.
pub open spec fn entry_views(v: Seq<PlanEntry>) -> Seq<EntryView> {
    Seq::new(v.len(), |i: int| v[i]@)
}

impl View for StrainPlan {
    type V = StrainPlanView;

    open spec fn view(&self) -> StrainPlanView {
        StrainPlanView {
            strain: self.strain@,
            retain: self.retain,
            entries: entry_views(self.entries@),
        }
    }
}

/// The plans of some strains.
pub open spec fn plan_views(v: Seq<StrainPlan>) -> Seq<StrainPlanView> {
    Seq::new(v.len(), |i: int| v[i]@)
}

/// The strains of some plans.
pub open spec fn plan_names(v: Seq<StrainPlanView>) -> Seq<Seq<char>> {
    Seq::new(v.len(), |i: int| v[i].strain)
}

/// The snapshots of a strain among `all`.
pub open spec fn of_strain(all: Seq<InfoView>, strain: Seq<char>) -> Seq<InfoView>
    decreases all.len(),
{
    if all.len() == 0 {
        Seq::empty()
    } else if all.last().strain == strain {
        of_strain(all.drop_last(), strain).push(all.last())
    } else {
        of_strain(all.drop_last(), strain)
    }
}

/// The decision on a snapshot.
pub open spec fn action_of(v: Seq<InfoView>, retain: RetainConfig, id: Seq<char>) -> ActionView {
    if is_kept(v, retain, id) {
        ActionView::Keep(keep_reasons(v, retain, id))
    } else {
        ActionView::Delete
    }
}

/// The decisions on the snapshots of a strain, newest first.
pub open spec fn entries_of(v: Seq<InfoView>, retain: RetainConfig) -> Seq<EntryView> {
    let s = newest_first(info_ids(v));
    Seq::new(s.len(), |i: int| EntryView { id: s[i], action: action_of(v, retain, s[i]) })
}

/// The plan for a strain.
pub open spec fn strain_plan(
    all: Seq<InfoView>,
    strain: Seq<char>,
    s: StrainView,
) -> StrainPlanView {
    StrainPlanView {
        strain,
        retain: s.retain,
        entries: entries_of(of_strain(all, strain), s.retain),
    }
}

/// Whether `v` holds the plan for every configured strain, sorted by name.
pub open spec fn plans_strains(
    c: ConfigView,
    all: Seq<InfoView>,
    v: Seq<StrainPlanView>,
) -> bool {
    &&& strictly_ascending(plan_names(v))
    &&& forall|i: int|
        0 <= i < v.len() ==> lookup(c.strain, (#[trigger] v[i]).strain) is Some && v[i]
            == strain_plan(all, v[i].strain, lookup(c.strain, v[i].strain)->Some_0)
    &&& forall|n: Seq<char>|
        #[trigger] lookup(c.strain, n) is Some ==> plan_names(v).contains(n)
}

/// Whether cleanup would purge a tombstone: it is forced to, or the tombstone
/// has aged out.
pub open spec fn would_purge(t: TombstoneView, now: Moment, force: bool) -> bool {
    force || (t.expires_at matches Some(e) && e.earlier(now))
}

/// The snapshots of a strain, by reference.
pub(crate) fn select_strain<'a>(all: &'a Vec<SnapshotInfo>, strain: &str) -> (r: Vec<
    &'a SnapshotInfo,
>)
    ensures
        ref_views(r@) == of_strain(infos(all@), strain@),
{
    let ghost v = infos(all@);
    let mut out: Vec<&'a SnapshotInfo> = Vec::new();
    let mut i: usize = 0;
    proof {
        assert(v.take(0) =~= Seq::empty());
        assert(ref_views(out@) =~= Seq::empty());
    }
    while i < all.len()
        invariant
            i <= all.len(),
            v == infos(all@),
            ref_views(out@) == of_strain(v.take(i as int), strain@),
        decreases all.len() - i,
    {
        let s: &'a SnapshotInfo = &all[i];
        proof {
            assert(v.take(i + 1).drop_last() =~= v.take(i as int));
            assert(v.take(i + 1).last() == s@);
        }
        if same_text(s.strain.as_str(), strain) {
            let ghost before = ref_views(out@);
            out.push(s);
            assert(ref_views(out@) =~= before.push(s@));
        }
        i = i + 1;
    }
    assert(v.take(v.len() as int) =~= v);
    out
}

fn plan_strain(all: &Vec<SnapshotInfo>, entry: &StrainEntry) -> (r: StrainPlan)
    ensures
        r@ == strain_plan(infos(all@), entry.name@, entry.config@),
{
    let refs = select_strain(all, entry.name.as_str());
    let ghost v = ref_views(refs@);
    let retain = entry.config.retain;
    let keep = select_to_keep_explained(&refs, &retain);
    let sorted = sort_newest_first(&refs);
    let ghost s = newest_first(info_ids(v));
    let mut entries: Vec<PlanEntry> = Vec::new();
    let mut i: usize = 0;
    proof {
        assert(entry_views(entries@) =~= entries_of(v, retain).take(0));
        assert(s.len() == sorted@.len());
    }
    while i < sorted.len()
        invariant
            i <= sorted.len(),
            v == ref_views(refs@),
            s == newest_first(info_ids(v)),
            s == crate::retention::id_views(sorted@),
            forall|id: Seq<char>| #[trigger]
                reasons_in(keep@, id) == keep_reasons(v, retain, id),
            forall|id: Seq<char>| #[trigger]
                lookup(keep@, id) is Some <==> is_kept(v, retain, id),
            entry_views(entries@) == entries_of(v, retain).take(i as int),
        decreases sorted.len() - i,
    {
        let id = sorted[i].clone();
        proof {
            assert(s[i as int] == id@);
            assert(reasons_in(keep@, id@) == keep_reasons(v, retain, id@));
            assert(lookup(keep@, id@) is Some <==> is_kept(v, retain, id@));
        }
        let action = match keep.get(id.as_str()) {
            Some(reasons) => PlanAction::Keep { reasons: reasons.clone() },
            None => PlanAction::Delete,
        };
        let row = PlanEntry { id, action };
        let ghost before = entry_views(entries@);
        entries.push(row);
        proof {
            assert(entry_views(entries@) =~= before.push(row@));
            assert(entries_of(v, retain).take(i + 1) =~= entries_of(v, retain).take(i as int).push(
                entries_of(v, retain)[i as int],
            ));
        }
        i = i + 1;
    }
    proof {
        assert(entries_of(v, retain).take(s.len() as int) =~= entries_of(v, retain));
    }
    StrainPlan { strain: entry.name.clone(), retain, entries }
}

fn insert_plan(v: &mut Vec<StrainPlan>, item: StrainPlan)
    requires
        strictly_ascending(plan_names(plan_views(old(v)@))),
        !plan_names(plan_views(old(v)@)).contains(item@.strain),
    ensures
        strictly_ascending(plan_names(plan_views(final(v)@))),
        exists|k: int|
            0 <= k <= old(v)@.len() && plan_views(final(v)@) == #[trigger] plan_views(
                old(v)@,
            ).insert(k, item@),
{
    let mut k: usize = 0;
    let ghost before = plan_names(plan_views(v@));
    while k < v.len() && precedes(v[k].strain.as_str(), item.strain.as_str())
        invariant
            k <= v.len(),
            before == plan_names(plan_views(v@)),
            forall|j: int| 0 <= j < k ==> text_less(#[trigger] before[j], item@.strain),
        decreases v.len() - k,
    {
        assert(before[k as int] == v@[k as int].strain@);
        k = k + 1;
    }
    proof {
        let now = before.insert(k as int, item@.strain);
        let all = plan_views(v@);
        assert(plan_views(v@.insert(k as int, item)) =~= all.insert(k as int, item@));
        assert(plan_names(all.insert(k as int, item@)) =~= now);
        if k < v.len() {
            assert(before[k as int] == v@[k as int].strain@);
            lemma_text_less_total(before[k as int], item@.strain);
            assert(before[k as int] != item@.strain);
        }
        assert forall|i: int, j: int| 0 <= i < j < now.len() implies text_less(
            #[trigger] now[i],
            #[trigger] now[j],
        ) by {
            if i < k && j > k {
                assert(text_less(before[i], before[j - 1]));
            } else if i == k {
                if j - 1 > k {
                    lemma_text_less_transitive(item@.strain, before[k as int], before[j - 1]);
                }
            } else if i > k {
                assert(text_less(before[i - 1], before[j - 1]));
            }
        }
    }
    v.insert(k, item);
}

/// Plans the retention of every configured strain, given the snapshots on
/// disk.
pub fn plan_strains(config: &Config, all: &Vec<SnapshotInfo>) -> (r: Vec<StrainPlan>)
    ensures
        plans_strains(config@, infos(all@), plan_views(r@)),
{
    let list = config.strain.entries();
    let ghost c = config@.strain;
    let ghost v = infos(all@);
    let mut out: Vec<StrainPlan> = Vec::new();
    let mut i: usize = 0;
    while i < list.len()
        invariant
            i <= list.len(),
            c == config@.strain,
            v == infos(all@),
            strain_views(list@) == c,
            distinct_keys(c),
            strictly_ascending(plan_names(plan_views(out@))),
            forall|k: int|
                0 <= k < out.len() ==> lookup(
                    c,
                    (#[trigger] plan_views(out@)[k]).strain,
                ) is Some && plan_views(out@)[k] == strain_plan(
                    v,
                    plan_views(out@)[k].strain,
                    lookup(c, plan_views(out@)[k].strain)->Some_0,
                ),
            forall|k: int|
                0 <= k < out.len() ==> exists|j: int|
                    0 <= j < i && (#[trigger] c[j]).0 == (#[trigger] plan_views(out@)[k]).strain,
            forall|j: int| 0 <= j < i ==> plan_names(plan_views(out@)).contains((#[trigger] c[j]).0),
        decreases list.len() - i,
    {
        let entry = &list[i];
        let ghost before = plan_views(out@);
        proof {
            assert(c[i as int] == entry@);
            lemma_lookup_distinct(c, i as int);
            assert forall|k: int| 0 <= k < before.len() implies plan_names(before)[k]
                != entry.name@ by {
                let j = choose|j: int| 0 <= j < i && (#[trigger] c[j]).0 == before[k].strain;
                assert(c[j].0 != c[i as int].0);
            }
        }
        let plan = plan_strain(all, entry);
        insert_plan(&mut out, plan);
        proof {
            let k = choose|k: int|
                0 <= k <= before.len() && plan_views(out@) == #[trigger] before.insert(k, plan@);
            let now = plan_views(out@);
            assert(now[k] == plan@);
            assert(plan_names(now)[k] == entry.name@);
            assert forall|y: int| 0 <= y < now.len() implies lookup(
                c,
                (#[trigger] now[y]).strain,
            ) is Some && now[y] == strain_plan(
                v,
                now[y].strain,
                lookup(c, now[y].strain)->Some_0,
            ) && exists|j: int| 0 <= j < i + 1 && (#[trigger] c[j]).0 == now[y].strain by {
                if y == k {
                    assert(c[i as int].0 == now[y].strain);
                } else {
                    let x = if y < k {
                        y
                    } else {
                        y - 1
                    };
                    assert(now[y] == before[x]);
                    let j = choose|j: int| 0 <= j < i && (#[trigger] c[j]).0 == before[x].strain;
                    assert(c[j].0 == now[y].strain);
                }
            }
            assert forall|j: int| 0 <= j < i + 1 implies plan_names(now).contains(
                (#[trigger] c[j]).0,
            ) by {
                if j < i {
                    assert(plan_names(before).contains(c[j].0));
                    let x = choose|x: int|
                        0 <= x < plan_names(before).len() && plan_names(before)[x] == c[j].0;
                    if x < k {
                        assert(plan_names(now)[x] == c[j].0);
                    } else {
                        assert(plan_names(now)[x + 1] == c[j].0);
                    }
                }
            }
        }
        i = i + 1;
    }
    proof {
        assert forall|n: Seq<char>| #[trigger] lookup(c, n) is Some implies plan_names(
            plan_views(out@),
        ).contains(n) by {
            let j = lemma_lookup_index(c, n);
            assert(c[j].0 == n);
        }
    }
    out
}

/// Whether the planned tombstones are `v`, each with its decision.
pub open spec fn plans_tombstones(
    p: Seq<PlanTombstone>,
    v: Seq<TombstoneView>,
    now: Moment,
    force: bool,
) -> bool {
    &&& p.len() == v.len()
    &&& forall|i: int|
        0 <= i < p.len() ==> (#[trigger] p[i]).tombstone@ == v[i] && p[i].would_purge
            == would_purge(v[i], now, force)
}

fn decide_tombstones(list: Vec<Tombstone>, now: &Moment, force: bool) -> (r: Vec<PlanTombstone>)
    ensures
        plans_tombstones(r@, tombstone_views(list@), *now, force),
{
    let ghost all = tombstone_views(list@);
    let mut rest = list;
    let mut out: Vec<PlanTombstone> = Vec::new();
    proof {
        assert(all.skip(0) =~= all);
    }
    while rest.len() > 0
        invariant
            out.len() + rest.len() == all.len(),
            tombstone_views(rest@) == all.skip(out.len() as int),
            forall|i: int|
                0 <= i < out.len() ==> (#[trigger] out[i]).tombstone@ == all[i]
                    && out[i].would_purge == would_purge(all[i], *now, force),
        decreases rest.len(),
    {
        let ghost before = rest@;
        let t = rest.remove(0);
        proof {
            assert(tombstone_views(before)[0] == t@);
            assert(all.skip(out.len() as int)[0] == all[out.len() as int]);
            assert(tombstone_views(rest@) =~= tombstone_views(before).skip(1));
            assert(all.skip(out.len() as int).skip(1) =~= all.skip(out.len() + 1));
        }
        let aged: bool = match &t.expires_at {
            Some(e) => e.before(now),
            None => false,
        };
        out.push(PlanTombstone { tombstone: t, would_purge: force || aged });
    }
    out
}

/// Whether `p` is the plan for the state `st`.
pub open spec fn is_plan(
    st: FsState,
    c: ConfigView,
    toplevel: PathView,
    now: Moment,
    force: bool,
    p: RetentionPlan,
) -> bool {
    &&& exists|all: Seq<InfoView>| #[trigger]
        discovered(st, c, toplevel, all) && plans_strains(c, all, plan_views(p.strains@))
    &&& exists|t: Seq<TombstoneView>| #[trigger]
        lists_tombstones(st, c, toplevel, t) && plans_tombstones(p.tombstones@, t, now, force)
}

/// Whether `p` is a plan that may be made for the state `st`. Where the backend
/// is not reliable, it is made for what discovery found.
pub open spec fn may_plan(
    st: FsState,
    c: ConfigView,
    toplevel: PathView,
    now: Moment,
    force: bool,
    p: RetentionPlan,
    exact: bool,
) -> bool {
    &&& exact ==> is_plan(st, c, toplevel, now, force, p)
    &&& exists|all: Seq<InfoView>| #[trigger]
        may_discover(st, c, toplevel, all, exact) && plans_strains(c, all, plan_views(p.strains@))
    &&& exists|t: Seq<TombstoneView>| #[trigger]
        lists_tombstones(st, c, toplevel, t) && plans_tombstones(p.tombstones@, t, now, force)
}

/// Compute, without modifying anything, what cleanup would do at `now`: every
/// snapshot per configured strain with a decision, and every tombstone with
/// whether it would be purged. With `force`, every tombstone would be.
pub fn plan_retention_with_now<B: FileSystemBackend>(
    config: &Config,
    backend: &B,
    toplevel: &FsPath,
    now: Moment,
    force: bool,
) -> (r: Result<RetentionPlan>)
    ensures
        backend.reliable() ==> r is Ok,
        r matches Ok(p) ==> may_plan(
            backend.state(),
            config@,
            toplevel@,
            now,
            force,
            p,
            backend.reliable(),
        ),
{
    let markers = match list_tombstones(config, backend, toplevel) {
        Ok(v) => v,
        Err(e) => {
            return Err(e);
        },
    };
    let ghost t = tombstone_views(markers@);
    let all = match discover_snapshots(config, backend, toplevel) {
        Ok(v) => v,
        Err(e) => {
            return Err(e);
        },
    };
    let strains = plan_strains(config, &all);
    let tombstones = decide_tombstones(markers, &now, force);
    let plan: Result<RetentionPlan> = Ok(RetentionPlan { strains, tombstones });
    proof {
        assert(plans_tombstones(plan->Ok_0.tombstones@, t, now, force));
        assert(lists_tombstones(backend.state(), config@, toplevel@, t));
        let v = infos(all@);
        assert(may_discover(backend.state(), config@, toplevel@, v, backend.reliable()));
        assert(plans_strains(config@, v, plan_views(plan->Ok_0.strains@)));
        assert(backend.reliable() ==> discovered(backend.state(), config@, toplevel@, v));
    }
    plan
}

/// Compute what cleanup would do now.
pub fn plan_retention<B: FileSystemBackend>(
    config: &Config,
    backend: &B,
    toplevel: &FsPath,
    force: bool,
) -> (r: Result<RetentionPlan>)
    ensures
        backend.reliable() ==> r is Ok,
        r matches Ok(p) ==> exists|now: Moment| #[trigger]
            now.of_clock() && may_plan(
                backend.state(),
                config@,
                toplevel@,
                now,
                force,
                p,
                backend.reliable(),
            ),
{
    let now = utc_now();
    assert(now.of_clock());
    plan_retention_with_now(config, backend, toplevel, now, force)
}

/// Those of the first snapshots `v` that the policy for `full` does not keep.
pub open spec fn dropped_of(
    full: Seq<InfoView>,
    retain: RetainConfig,
    v: Seq<InfoView>,
) -> Seq<InfoView>
    decreases v.len(),
{
    if v.len() == 0 {
        Seq::empty()
    } else if is_kept(full, retain, v.last().id) {
        dropped_of(full, retain, v.drop_last())
    } else {
        dropped_of(full, retain, v.drop_last()).push(v.last())
    }
}

/// The snapshots of a strain that its policy does not keep.
pub open spec fn dropped(all: Seq<InfoView>, strain: Seq<char>, retain: RetainConfig) -> Seq<
    InfoView,
> {
    dropped_of(of_strain(all, strain), retain, of_strain(all, strain))
}

/// The snapshots that the policies of the first `n` strains do not keep.
pub open spec fn drop_list(
    s: Seq<(Seq<char>, StrainView)>,
    all: Seq<InfoView>,
    n: nat,
) -> Seq<InfoView>
    decreases n,
{
    if n == 0 || n > s.len() {
        Seq::empty()
    } else {
        drop_list(s, all, (n - 1) as nat) + dropped(all, s[n - 1].0, s[n - 1].1.retain)
    }
}

/// The snapshots that no policy keeps.
pub open spec fn all_dropped(c: ConfigView, all: Seq<InfoView>) -> Seq<InfoView> {
    drop_list(c.strain, all, c.strain.len())
}

proof fn lemma_dropped_prefix(a: Seq<InfoView>, b: Seq<InfoView>, i: int)
    requires
        b.len() >= a.len(),
        b.take(a.len() as int) == a,
        0 <= i < a.len(),
    ensures
        b[i] == a[i],
{
    assert(b.take(a.len() as int)[i] == b[i]);
}

proof fn lemma_dropped_grows(
    full: Seq<InfoView>,
    retain: RetainConfig,
    v: Seq<InfoView>,
    j: int,
)
    requires
        0 <= j <= v.len(),
    ensures
        dropped_of(full, retain, v.take(j)).len() <= dropped_of(full, retain, v).len(),
        dropped_of(full, retain, v).take(dropped_of(full, retain, v.take(j)).len() as int)
            == dropped_of(full, retain, v.take(j)),
    decreases v.len() - j,
{
    let a = dropped_of(full, retain, v.take(j));
    if j == v.len() {
        assert(v.take(j) =~= v);
        assert(a.take(a.len() as int) =~= a);
    } else {
        lemma_dropped_grows(full, retain, v, j + 1);
        let b = dropped_of(full, retain, v.take(j + 1));
        let c = dropped_of(full, retain, v);
        assert(v.take(j + 1).drop_last() =~= v.take(j));
        assert(b.take(a.len() as int) =~= a);
        assert(c.take(a.len() as int) =~= c.take(b.len() as int).take(a.len() as int));
    }
}

proof fn lemma_drop_list_grows(
    s: Seq<(Seq<char>, StrainView)>,
    all: Seq<InfoView>,
    k: nat,
    n: nat,
)
    requires
        k <= n <= s.len(),
    ensures
        drop_list(s, all, k).len() <= drop_list(s, all, n).len(),
        drop_list(s, all, n).take(drop_list(s, all, k).len() as int) == drop_list(s, all, k),
    decreases n - k,
{
    let a = drop_list(s, all, k);
    if k == n {
        assert(a.take(a.len() as int) =~= a);
    } else {
        lemma_drop_list_grows(s, all, k + 1, n);
        let b = drop_list(s, all, k + 1);
        let c = drop_list(s, all, n);
        assert(b.take(a.len() as int) =~= a);
        assert(c.take(a.len() as int) =~= c.take(b.len() as int).take(a.len() as int));
    }
}

proof fn lemma_removable_prefix(
    st: FsState,
    c: ConfigView,
    toplevel: PathView,
    a: Seq<InfoView>,
    b: Seq<InfoView>,
)
    requires
        all_removable(st, c, toplevel, b),
        a.len() <= b.len(),
        b.take(a.len() as int) == a,
    ensures
        all_removable(st, c, toplevel, a),
{
    assert forall|k: int, i: int|
        0 <= k < a.len() && 0 <= i < a[k].subvolumes.len() implies crate::backend::removable(
        st,
        #[trigger] info_paths(c, toplevel, a[k])[i],
    ) by {
        lemma_dropped_prefix(a, b, k);
        assert(crate::backend::removable(st, info_paths(c, toplevel, b[k])[i]));
    }
}

/// Apply the retention policy of each strain to a list of snapshots: those
/// that no rule keeps are deleted. Returns their IDs.
pub fn apply_retention_to<B: FileSystemBackend>(
    config: &Config,
    backend: &mut B,
    toplevel: &FsPath,
    all_snapshots: &Vec<SnapshotInfo>,
) -> (r: Result<Vec<String>>)
    ensures
        final(backend).reliable() == old(backend).reliable(),
        r is Ok ==> views(r->Ok_0@) == ids_of(all_dropped(config@, infos(all_snapshots@)))
            && deleted_all(
            old(backend).state(),
            final(backend).state(),
            config@,
            toplevel@,
            all_dropped(config@, infos(all_snapshots@)),
            old(backend).reliable(),
        ),
        r is Err ==> exists|k: int|
            0 <= k <= all_dropped(config@, infos(all_snapshots@)).len() && #[trigger] deleted_all(
                old(backend).state(),
                final(backend).state(),
                config@,
                toplevel@,
                all_dropped(config@, infos(all_snapshots@)).take(k),
                false,
            ),
        old(backend).reliable() && all_removable(
            old(backend).state(),
            config@,
            toplevel@,
            all_dropped(config@, infos(all_snapshots@)),
        ) ==> r is Ok,
{
    let ghost a = backend.state();
    let ghost exact = backend.reliable();
    let ghost v = infos(all_snapshots@);
    let ghost c = config@.strain;
    let ghost goal = all_dropped(config@, v);
    let list = config.strain.entries();
    let mut removed: Vec<String> = Vec::new();
    let mut i: usize = 0;
    proof {
        lemma_deleted_none(a, config@, toplevel@, exact);
        assert(views(removed@) =~= ids_of(Seq::empty()));
    }
    while i < list.len()
        invariant
            i <= list.len(),
            a == old(backend).state(),
            exact == old(backend).reliable(),
            backend.reliable() == exact,
            v == infos(all_snapshots@),
            c == config@.strain,
            goal == all_dropped(config@, v),
            strain_views(list@) == c,
            views(removed@) == ids_of(drop_list(c, v, i as nat)),
            deleted_all(
                a,
                backend.state(),
                config@,
                toplevel@,
                drop_list(c, v, i as nat),
                exact,
            ),
        decreases list.len() - i,
    {
        let entry = &list[i];
        let refs = select_strain(all_snapshots, entry.name.as_str());
        let ghost mine = ref_views(refs@);
        let ghost retain = entry.config.retain;
        let keep = select_to_keep(&refs, &entry.config.retain);
        let ghost base = drop_list(c, v, i as nat);
        let mut j: usize = 0;
        proof {
            assert(c[i as int] == entry@);
            assert(mine.take(0) =~= Seq::empty());
            assert(base + Seq::<InfoView>::empty() =~= base);
        }
        while j < refs.len()
            invariant
                j <= refs.len(),
                i < list.len(),
                a == old(backend).state(),
                exact == old(backend).reliable(),
                backend.reliable() == exact,
                v == infos(all_snapshots@),
                c == config@.strain,
                goal == all_dropped(config@, v),
                c[i as int] == entry@,
                c.len() == list.len(),
                retain == entry.config.retain,
                mine == ref_views(refs@),
                mine == of_strain(v, entry.name@),
                base == drop_list(c, v, i as nat),
                forall|id: Seq<char>| #[trigger]
                    views(keep@).contains(id) <==> is_kept(mine, retain, id),
                views(removed@) == ids_of(base + dropped_of(mine, retain, mine.take(j as int))),
                deleted_all(
                    a,
                    backend.state(),
                    config@,
                    toplevel@,
                    base + dropped_of(mine, retain, mine.take(j as int)),
                    exact,
                ),
            decreases refs.len() - j,
        {
            let snap = refs[j];
            let ghost part = dropped_of(mine, retain, mine.take(j as int));
            let ghost done = base + part;
            proof {
                assert(mine[j as int] == snap@);
                assert(mine.take(j + 1).drop_last() =~= mine.take(j as int));
                assert(mine.take(j + 1).last() == snap@);
            }
            if !contains_text(&keep, snap.id.as_str()) {
                let ghost b = backend.state();
                let token: String = snap.id.as_str().to_owned();
                proof {
                    assert(base + part.push(snap@) =~= done.push(snap@));
                    assert(ids_of(done.push(snap@)) =~= ids_of(done).push(token@));
                    lemma_views_push(removed@, token);
                    assert(dropped_of(mine, retain, mine.take(j + 1)) == part.push(snap@));
                    if is_protected(snap@.metadata) {
                        law_protected_is_kept(mine, retain, j as int);
                    }
                    // What is deleted so far begins the whole list.
                    lemma_dropped_grows(mine, retain, mine, j + 1);
                    assert(mine.take(mine.len() as int) =~= mine);
                    let next = drop_list(c, v, (i + 1) as nat);
                    assert(next == base + dropped_of(mine, retain, mine));
                    assert(next.take((done.len() + 1) as int) =~= done.push(snap@));
                    lemma_drop_list_grows(c, v, (i + 1) as nat, c.len());
                    assert(goal.take((done.len() + 1) as int) =~= goal.take(
                        next.len() as int,
                    ).take((done.len() + 1) as int));
                    assert(goal.take((done.len() + 1) as int) == done.push(snap@));
                }
                match delete_snapshot(config, backend, toplevel, snap) {
                    Ok(_) => {
                        proof {
                            lemma_deleted_push(
                                a,
                                b,
                                backend.state(),
                                config@,
                                toplevel@,
                                done,
                                snap@,
                                exact,
                            );
                        }
                        removed.push(token);
                    },
                    Err(e) => {
                        proof {
                            if exact {
                                lemma_deleted_weaken(a, b, config@, toplevel@, done);
                                if all_removable(a, config@, toplevel@, goal) {
                                    lemma_removable_prefix(
                                        a,
                                        config@,
                                        toplevel@,
                                        done.push(snap@),
                                        goal,
                                    );
                                    let k = done.len() as int;
                                    assert(done.push(snap@)[k] == snap@);
                                    assert forall|x: int|
                                        0 <= x < snap@.subvolumes.len()
                                            implies crate::backend::removable(
                                        b,
                                        #[trigger] info_paths(config@, toplevel@, snap@)[x],
                                    ) by {
                                        assert(crate::backend::removable(
                                            a,
                                            info_paths(
                                                config@,
                                                toplevel@,
                                                done.push(snap@)[k],
                                            )[x],
                                        ));
                                    }
                                }
                            }
                            lemma_deleted_push(
                                a,
                                b,
                                backend.state(),
                                config@,
                                toplevel@,
                                done,
                                snap@,
                                false,
                            );
                            let k = done.len() + 1;
                            assert(deleted_all(
                                a,
                                backend.state(),
                                config@,
                                toplevel@,
                                goal.take(k as int),
                                false,
                            ));
                        }
                        return Err(e);
                    },
                }
            }
            j = j + 1;
        }
        proof {
            assert(mine.take(mine.len() as int) =~= mine);
        }
        i = i + 1;
    }
    Ok(removed)
}


/// Remove sidecar files whose matching snapshot subvolume is gone. One that
/// cannot be removed is left. Returns the names that were removed.
pub fn purge_orphaned_sidecars<B: FileSystemBackend>(
    config: &Config,
    backend: &mut B,
    toplevel: &FsPath,
) -> (r: Result<Vec<String>>)
    ensures
        final(backend).reliable() == old(backend).reliable(),
        r is Err ==> final(backend).state() == old(backend).state(),
        old(backend).reliable() ==> r is Ok,
        r is Ok ==> orphans_purged(
            old(backend).state(),
            final(backend).state(),
            snap_dir_of(config@, toplevel@),
            views(r->Ok_0@),
        ),
        old(backend).reliable() && old(backend).state().subvols.contains_key(
            snap_dir_of(config@, toplevel@),
        ) ==> forall|n: Seq<char>| #[trigger]
            is_orphan(old(backend).state(), snap_dir_of(config@, toplevel@), n) ==> views(
                r->Ok_0@,
            ).contains(n),
        old(backend).reliable() && !old(backend).state().subvols.contains_key(
            snap_dir_of(config@, toplevel@),
        ) ==> r->Ok_0@.len() == 0,
{
    let dir = snapshot_dir(config, toplevel);
    let ghost a = backend.state();
    let ghost exact = backend.reliable();
    let orphans = match find_orphaned_sidecars(&dir, backend) {
        Ok(v) => v,
        Err(e) => {
            return Err(e);
        },
    };
    let ghost all = orphan_names(orphans@);
    let mut removed: Vec<String> = Vec::new();
    let mut i: usize = 0;
    proof {
        assert(views(removed@) =~= Seq::empty());
        assert(all.take(0) =~= Seq::empty());
    }
    while i < orphans.len()
        invariant
            i <= orphans.len(),
            a == old(backend).state(),
            exact == old(backend).reliable(),
            backend.reliable() == exact,
            all == orphan_names(orphans@),
            are_orphans(a, dir@, orphans@),
            orphans_purged(a, backend.state(), dir@, views(removed@)),
            forall|k: int|
                0 <= k < removed.len() ==> exists|j: int|
                    0 <= j < i && all[j] == #[trigger] views(removed@)[k],
            exact ==> views(removed@) == all.take(i as int),
        decreases orphans.len() - i,
    {
        let ghost s = backend.state();
        let ghost before = views(removed@);
        let name: String = orphans[i].name.clone();
        proof {
            assert(all[i as int] == name@);
            assert(is_orphan(a, dir@, orphans@[i as int].name@));
            assert(orphans@[i as int].path@ == dir@.push(name@));
            assert(!before.contains(name@)) by {
                if before.contains(name@) {
                    let k = choose|k: int| 0 <= k < before.len() && before[k] == name@;
                    let j = choose|j: int| 0 <= j < i && all[j] == before[k];
                    assert(text_less(all[j], all[i as int]));
                    crate::text::lemma_text_less_irreflexive(name@);
                }
            }
            lemma_orphan_still_there(a, s, dir@, before, name@);
            lemma_views_push(removed@, name);
            assert(all.take(i + 1) =~= all.take(i as int).push(name@));
        }
        match backend.remove_file(&orphans[i].path) {
            Ok(found) => {
                assert(found);
                if found {
                    removed.push(name);
                    proof {
                        lemma_orphan_removed(a, s, backend.state(), dir@, before, name@);
                        assert forall|k: int| 0 <= k < views(removed@).len() implies exists|j: int|
                            0 <= j < i + 1 && all[j] == #[trigger] views(removed@)[k] by {
                            if k < before.len() {
                                assert(views(removed@)[k] == before[k]);
                                let j = choose|j: int| 0 <= j < i && all[j] == before[k];
                                assert(all[j] == views(removed@)[k]);
                            } else {
                                assert(all[i as int] == views(removed@)[k]);
                            }
                        }
                    }
                }
            },
            Err(_) => {
                proof {
                    assert forall|k: int| 0 <= k < before.len() implies exists|j: int|
                        0 <= j < i + 1 && all[j] == #[trigger] before[k] by {
                        let j = choose|j: int| 0 <= j < i && all[j] == before[k];
                        assert(all[j] == before[k]);
                    }
                }
            },
        }
        i = i + 1;
    }
    proof {
        assert(all.take(all.len() as int) =~= all);
    }
    Ok(removed)
}

/// Whether `b` is `a` without the sidecars `names` in `dir`, each of which was
/// an orphan.
pub open spec fn orphans_purged(
    a: FsState,
    b: FsState,
    dir: PathView,
    names: Seq<Seq<char>>,
) -> bool {
    &&& b.subvols == a.subvols
    &&& b.default_subvol == a.default_subvol
    &&& forall|i: int| 0 <= i < names.len() ==> is_orphan(a, dir, #[trigger] names[i])
    &&& names.no_duplicates()
    &&& forall|p: PathView| #[trigger]
        b.files.contains_key(p) <==> a.files.contains_key(p) && !child_paths(dir, names).contains(p)
    &&& forall|p: PathView| #[trigger] b.files.contains_key(p) ==> b.files[p] == a.files[p]
}

proof fn lemma_orphan_still_there(
    a: FsState,
    s: FsState,
    dir: PathView,
    names: Seq<Seq<char>>,
    n: Seq<char>,
)
    requires
        orphans_purged(a, s, dir, names),
        is_orphan(a, dir, n),
        !names.contains(n),
    ensures
        s.files.contains_key(dir.push(n)),
{
    let paths = child_paths(dir, names);
    if paths.contains(dir.push(n)) {
        let k = choose|k: int| 0 <= k < paths.len() && paths[k] == dir.push(n);
        assert(dir.push(names[k]).last() == names[k]);
        assert(dir.push(n).last() == n);
        assert(names[k] == n);
    }
}

proof fn lemma_orphan_removed(
    a: FsState,
    s: FsState,
    t: FsState,
    dir: PathView,
    names: Seq<Seq<char>>,
    n: Seq<char>,
)
    requires
        orphans_purged(a, s, dir, names),
        is_orphan(a, dir, n),
        !names.contains(n),
        t == (FsState { files: s.files.remove(dir.push(n)), ..s }),
    ensures
        orphans_purged(a, t, dir, names.push(n)),
{
    let paths = child_paths(dir, names);
    let more = child_paths(dir, names.push(n));
    assert(more =~= paths.push(dir.push(n)));
    assert forall|p: PathView| #[trigger] t.files.contains_key(p) <==> a.files.contains_key(p)
        && !more.contains(p) by {
        if more.contains(p) {
            let k = choose|k: int| 0 <= k < more.len() && more[k] == p;
            if k < paths.len() {
                assert(paths[k] == p);
                assert(paths.contains(p));
            }
        }
        if paths.contains(p) {
            let k = choose|k: int| 0 <= k < paths.len() && paths[k] == p;
            assert(more[k] == p);
        }
        if p == dir.push(n) {
            assert(more[paths.len() as int] == p);
        }
        assert(s.files.contains_key(p) <==> a.files.contains_key(p) && !paths.contains(p));
    }
    assert forall|p: PathView| #[trigger] t.files.contains_key(p) implies t.files[p]
        == a.files[p] by {
        assert(s.files.contains_key(p));
    }
}

/// Combined result of a cleanup run.
#[derive(Debug)]
pub struct CleanupSummary {
    /// Snapshot IDs and tombstone subvolume names that were removed.
    pub removed: Vec<String>,
    /// Names of orphaned sidecar files that were removed.
    pub removed_sidecars: Vec<String>,
}

impl Default for CleanupSummary {
    fn default() -> (r: CleanupSummary)
        ensures
            r.removed@.len() == 0,
            r.removed_sidecars@.len() == 0,
    {
        CleanupSummary { removed: Vec::new(), removed_sidecars: Vec::new() }
    }
}

/// Whether a cleanup after the tombstone stage turned `s1` into `b`, by way of
/// `s2`: retention was applied to the snapshots on disk, then orphaned sidecars
/// were removed. `purged` are the tombstones that were removed before.
pub open spec fn cleaned(
    s1: FsState,
    s2: FsState,
    b: FsState,
    c: ConfigView,
    toplevel: PathView,
    all: Seq<InfoView>,
    purged: Seq<Seq<char>>,
    o: CleanupSummary,
) -> bool {
    &&& discovered(s1, c, toplevel, all)
    &&& deleted_all(s1, s2, c, toplevel, all_dropped(c, all), true)
    &&& orphans_purged(s2, b, snap_dir_of(c, toplevel), views(o.removed_sidecars@))
    &&& s2.subvols.contains_key(snap_dir_of(c, toplevel)) ==> forall|n: Seq<char>| #[trigger]
        is_orphan(s2, snap_dir_of(c, toplevel), n) ==> views(o.removed_sidecars@).contains(n)
    &&& views(o.removed@) == purged + ids_of(all_dropped(c, all))
}

/// Whether a cleanup that found `all` in `s1` succeeds where it has to: where
/// none of the snapshots to delete holds a nested subvolume.
pub open spec fn owes_cleanup(
    s1: FsState,
    c: ConfigView,
    toplevel: PathView,
    all: Seq<InfoView>,
    ok: bool,
) -> bool {
    &&& discovered(s1, c, toplevel, all)
    &&& all_removable(s1, c, toplevel, all_dropped(c, all)) ==> ok
}

/// Whether what `b` lacks of `s1` is no more than what retention and the
/// removal of orphaned sidecars may take: of the snapshots found in `s1` the
/// first few that no rule keeps, then some orphans. This holds of a cleanup
/// that was cut short too.
pub open spec fn thinned(s1: FsState, b: FsState, c: ConfigView, toplevel: PathView) -> bool {
    exists|s2: FsState, all: Seq<InfoView>, k: int, orphans: Seq<Seq<char>>|
        (all.len() == 0 || is_discovery(s1, c, toplevel, all, false)) && 0 <= k <= all_dropped(
            c,
            all,
        ).len() && #[trigger] deleted_all(
            s1,
            s2,
            c,
            toplevel,
            all_dropped(c, all).take(k),
            false,
        ) && #[trigger] orphans_purged(s2, b, snap_dir_of(c, toplevel), orphans)
}

/// Whether what `b` lacks of `a` is no more than some markers and what
/// [`thinned`] allows.
pub open spec fn purged_and_thinned(
    a: FsState,
    b: FsState,
    c: ConfigView,
    toplevel: PathView,
) -> bool {
    exists|s1: FsState, names: Seq<Seq<char>>| #[trigger]
        only_markers_purged(a, s1, c, toplevel, names, false) && thinned(s1, b, c, toplevel)
}

proof fn lemma_no_orphans_purged(a: FsState, dir: PathView)
    ensures
        orphans_purged(a, a, dir, Seq::empty()),
{
}

proof fn lemma_thinned(
    s1: FsState,
    s2: FsState,
    b: FsState,
    c: ConfigView,
    toplevel: PathView,
    all: Seq<InfoView>,
    k: int,
    orphans: Seq<Seq<char>>,
)
    requires
        all.len() == 0 || is_discovery(s1, c, toplevel, all, false),
        0 <= k <= all_dropped(c, all).len(),
        deleted_all(s1, s2, c, toplevel, all_dropped(c, all).take(k), false),
        orphans_purged(s2, b, snap_dir_of(c, toplevel), orphans),
    ensures
        thinned(s1, b, c, toplevel),
{
}

proof fn lemma_thinned_none(a: FsState, c: ConfigView, toplevel: PathView)
    ensures
        thinned(a, a, c, toplevel),
{
    let none = Seq::<InfoView>::empty();
    lemma_deleted_none(a, c, toplevel, false);
    assert(all_dropped(c, none).take(0) =~= Seq::empty());
    lemma_no_orphans_purged(a, snap_dir_of(c, toplevel));
    lemma_thinned(a, a, a, c, toplevel, none, 0, Seq::empty());
}

/// Applies retention to the snapshots on disk, then removes orphaned sidecars.
fn finish_cleanup<B: FileSystemBackend>(
    config: &Config,
    backend: &mut B,
    toplevel: &FsPath,
    purged: Vec<String>,
) -> (r: Result<CleanupSummary>)
    ensures
        final(backend).reliable() == old(backend).reliable(),
        thinned(old(backend).state(), final(backend).state(), config@, toplevel@),
        r is Ok && old(backend).reliable() ==> exists|s2: FsState, all: Seq<InfoView>| #[trigger]
            cleaned(
                old(backend).state(),
                s2,
                final(backend).state(),
                config@,
                toplevel@,
                all,
                views(purged@),
                r->Ok_0,
            ),
        old(backend).reliable() ==> exists|all: Seq<InfoView>| #[trigger]
            owes_cleanup(old(backend).state(), config@, toplevel@, all, r is Ok),
{
    let ghost s1 = backend.state();
    let ghost exact = backend.reliable();
    let all = match discover_snapshots(config, backend, toplevel) {
        Ok(v) => v,
        Err(e) => {
            proof {
                lemma_thinned_none(s1, config@, toplevel@);
            }
            return Err(e);
        },
    };
    let ghost v = infos(all@);
    proof {
        if exact {
            assert(discovered(s1, config@, toplevel@, v));
        }
    }
    let mut dropped_ids = match apply_retention_to(config, backend, toplevel, &all) {
        Ok(d) => d,
        Err(e) => {
            let out: Result<CleanupSummary> = Err(e);
            proof {
                let s2 = backend.state();
                let gone = all_dropped(config@, v);
                let k = choose|k: int|
                    0 <= k <= gone.len() && #[trigger] deleted_all(
                        s1,
                        s2,
                        config@,
                        toplevel@,
                        gone.take(k),
                        false,
                    );
                lemma_no_orphans_purged(s2, snap_dir_of(config@, toplevel@));
                lemma_thinned(s1, s2, s2, config@, toplevel@, v, k, Seq::empty());
            }
            assert(exact ==> owes_cleanup(s1, config@, toplevel@, v, out is Ok));
            return out;
        },
    };
    let ghost s2 = backend.state();
    proof {
        let gone = all_dropped(config@, v);
        if exact {
            lemma_deleted_weaken(s1, s2, config@, toplevel@, gone);
        }
        assert(gone.take(gone.len() as int) =~= gone);
        lemma_no_orphans_purged(s2, snap_dir_of(config@, toplevel@));
        lemma_thinned(
            s1,
            s2,
            s2,
            config@,
            toplevel@,
            v,
            gone.len() as int,
            Seq::empty(),
        );
    }
    let mut removed = purged;
    let ghost first = views(removed@);
    let ghost second = views(dropped_ids@);
    removed.append(&mut dropped_ids);
    assert(views(removed@) =~= first + second);
    let removed_sidecars = match purge_orphaned_sidecars(config, backend, toplevel) {
        Ok(n) => n,
        Err(e) => {
            return Err(e);
        },
    };
    let out: Result<CleanupSummary> = Ok(CleanupSummary { removed, removed_sidecars });
    proof {
        let gone = all_dropped(config@, v);
        lemma_thinned(
            s1,
            s2,
            backend.state(),
            config@,
            toplevel@,
            v,
            gone.len() as int,
            views(removed_sidecars@),
        );
        if exact {
            assert(owes_cleanup(s1, config@, toplevel@, v, out is Ok));
            assert(cleaned(
                s1,
                s2,
                backend.state(),
                config@,
                toplevel@,
                v,
                first,
                out->Ok_0,
            ));
        }
    }
    out
}

/// Whether the tombstone stage of a cleanup at `now` turned `a` into `s1`,
/// removing `purged`: those that have aged out.
pub open spec fn aged_out_purged(
    a: FsState,
    s1: FsState,
    c: ConfigView,
    toplevel: PathView,
    now: Moment,
    purged: Seq<Seq<char>>,
) -> bool {
    if c.sys.tombstone_max_age_days == 0 {
        s1 == a && purged.len() == 0
    } else {
        exists|t: Seq<TombstoneView>| #[trigger]
            lists_tombstones(a, c, toplevel, t) && purged == expired_names(c, t, now)
                && only_markers_purged(a, s1, c, toplevel, purged, true)
    }
}

/// Whether the tombstone stage of a forced cleanup turned `a` into `s1`,
/// removing `purged`: all of them.
pub open spec fn all_markers_purged(
    a: FsState,
    s1: FsState,
    c: ConfigView,
    toplevel: PathView,
    purged: Seq<Seq<char>>,
) -> bool {
    &&& only_markers_purged(a, s1, c, toplevel, purged, true)
    &&& forall|n: Seq<char>| #[trigger] is_marker(a, c, toplevel, n) ==> purged.contains(n)
}

/// Clean up at `now`: purge tombstones that have aged out, apply the retention
/// policies, remove orphaned sidecars.
pub fn apply_retention_with_now<B: FileSystemBackend>(
    config: &Config,
    backend: &mut B,
    toplevel: &FsPath,
    now: Moment,
) -> (r: Result<CleanupSummary>)
    requires
        now.wf(),
    ensures
        final(backend).reliable() == old(backend).reliable(),
        purged_and_thinned(old(backend).state(), final(backend).state(), config@, toplevel@),
        r is Ok && old(backend).reliable() ==> exists|
            s1: FsState,
            s2: FsState,
            all: Seq<InfoView>,
            purged: Seq<Seq<char>>,
        |
            aged_out_purged(old(backend).state(), s1, config@, toplevel@, now, purged)
                && #[trigger] cleaned(
                s1,
                s2,
                final(backend).state(),
                config@,
                toplevel@,
                all,
                purged,
                r->Ok_0,
            ),
        old(backend).reliable() ==> exists|
            s1: FsState,
            all: Seq<InfoView>,
            purged: Seq<Seq<char>>,
        |
            #[trigger] aged_out_purged(
                old(backend).state(),
                s1,
                config@,
                toplevel@,
                now,
                purged,
            ) && #[trigger] owes_cleanup(s1, config@, toplevel@, all, r is Ok),
{
    let ghost a = backend.state();
    let purged = match purge_expired_tombstones(config, backend, toplevel, now) {
        Ok(p) => p,
        Err(e) => {
            proof {
                lemma_thinned_none(a, config@, toplevel@);
            }
            return Err(e);
        },
    };
    let ghost s1 = backend.state();
    let ghost p = views(purged@);
    proof {
        if backend.reliable() {
            assert(aged_out_purged(a, s1, config@, toplevel@, now, p));
        }
    }
    finish_cleanup(config, backend, toplevel, purged)
}

/// Clean up now.
pub fn apply_retention<B: FileSystemBackend>(
    config: &Config,
    backend: &mut B,
    toplevel: &FsPath,
) -> (r: Result<CleanupSummary>)
    ensures
        final(backend).reliable() == old(backend).reliable(),
        purged_and_thinned(old(backend).state(), final(backend).state(), config@, toplevel@),
        r is Ok && old(backend).reliable() ==> exists|
            now: Moment,
            s1: FsState,
            s2: FsState,
            all: Seq<InfoView>,
            purged: Seq<Seq<char>>,
        |
            now.of_clock() && #[trigger] aged_out_purged(
                old(backend).state(),
                s1,
                config@,
                toplevel@,
                now,
                purged,
            ) && #[trigger] cleaned(
                s1,
                s2,
                final(backend).state(),
                config@,
                toplevel@,
                all,
                purged,
                r->Ok_0,
            ),
        old(backend).reliable() ==> exists|
            now: Moment,
            s1: FsState,
            all: Seq<InfoView>,
            purged: Seq<Seq<char>>,
        |
            now.of_clock() && #[trigger] aged_out_purged(
                old(backend).state(),
                s1,
                config@,
                toplevel@,
                now,
                purged,
            ) && #[trigger] owes_cleanup(s1, config@, toplevel@, all, r is Ok),
{
    let now = utc_now();
    apply_retention_with_now(config, backend, toplevel, now)
}

/// Forced cleanup: purge every tombstone regardless of age, apply the retention
/// policies, remove orphaned sidecars.
pub fn apply_retention_force<B: FileSystemBackend>(
    config: &Config,
    backend: &mut B,
    toplevel: &FsPath,
) -> (r: Result<CleanupSummary>)
    ensures
        final(backend).reliable() == old(backend).reliable(),
        purged_and_thinned(old(backend).state(), final(backend).state(), config@, toplevel@),
        r is Ok && old(backend).reliable() ==> exists|
            s1: FsState,
            s2: FsState,
            all: Seq<InfoView>,
            purged: Seq<Seq<char>>,
        |
            all_markers_purged(old(backend).state(), s1, config@, toplevel@, purged)
                && #[trigger] cleaned(
                s1,
                s2,
                final(backend).state(),
                config@,
                toplevel@,
                all,
                purged,
                r->Ok_0,
            ),
        old(backend).reliable() ==> exists|
            s1: FsState,
            all: Seq<InfoView>,
            purged: Seq<Seq<char>>,
        |
            #[trigger] all_markers_purged(
                old(backend).state(),
                s1,
                config@,
                toplevel@,
                purged,
            ) && #[trigger] owes_cleanup(s1, config@, toplevel@, all, r is Ok),
{
    let ghost a = backend.state();
    let purged = match purge_all_tombstones(config, backend, toplevel) {
        Ok(p) => p,
        Err(e) => {
            proof {
                lemma_thinned_none(a, config@, toplevel@);
            }
            return Err(e);
        },
    };
    let ghost s1 = backend.state();
    let ghost p = views(purged@);
    proof {
        if backend.reliable() {
            assert(all_markers_purged(a, s1, config@, toplevel@, p));
        }
    }
    finish_cleanup(config, backend, toplevel, purged)
}

proof fn lemma_dropped_iff(
    full: Seq<InfoView>,
    retain: RetainConfig,
    v: Seq<InfoView>,
    id: Seq<char>,
)
    ensures
        ids_of(dropped_of(full, retain, v)).contains(id) <==> info_ids(v).contains(id) && !is_kept(
            full,
            retain,
            id,
        ),
    decreases v.len(),
{
    if v.len() > 0 {
        let rest = v.drop_last();
        lemma_dropped_iff(full, retain, rest, id);
        let d = dropped_of(full, retain, rest);
        let all = dropped_of(full, retain, v);
        let x = v.last();
        assert(info_ids(v) =~= info_ids(rest).push(x.id));
        if !is_kept(full, retain, x.id) {
            assert(ids_of(all) =~= ids_of(d).push(x.id));
            if ids_of(all).contains(id) {
                let k = choose|k: int| 0 <= k < ids_of(all).len() && ids_of(all)[k] == id;
                if k < d.len() {
                    assert(ids_of(d)[k] == id);
                } else {
                    assert(info_ids(v)[rest.len() as int] == id);
                }
            }
            if ids_of(d).contains(id) {
                let k = choose|k: int| 0 <= k < ids_of(d).len() && ids_of(d)[k] == id;
                assert(ids_of(all)[k] == id);
            }
            if x.id == id {
                assert(ids_of(all)[d.len() as int] == id);
            }
        }
        if info_ids(rest).contains(id) {
            let k = choose|k: int| 0 <= k < info_ids(rest).len() && info_ids(rest)[k] == id;
            assert(info_ids(v)[k] == id);
        }
        if info_ids(v).contains(id) {
            let k = choose|k: int| 0 <= k < info_ids(v).len() && info_ids(v)[k] == id;
            if k < rest.len() {
                assert(info_ids(rest)[k] == id);
            }
        }
    } else {
        assert(ids_of(dropped_of(full, retain, v)).len() == 0);
        assert(info_ids(v).len() == 0);
    }
}

/// The plan says what is done: in the plan for a strain, the rows marked for
/// deletion are exactly the snapshots that applying retention deletes.
pub proof fn law_plan_matches_retention(
    all: Seq<InfoView>,
    strain: Seq<char>,
    s: StrainView,
    i: int,
)
    requires
        0 <= i < strain_plan(all, strain, s).entries.len(),
    ensures
        strain_plan(all, strain, s).entries[i].action is Delete <==> ids_of(
            dropped(all, strain, s.retain),
        ).contains(strain_plan(all, strain, s).entries[i].id),
{
    let v = of_strain(all, strain);
    let sorted = newest_first(info_ids(v));
    let id = strain_plan(all, strain, s).entries[i].id;
    assert(id == sorted[i]);
    lemma_dropped_iff(v, s.retain, v, id);
    crate::retention::lemma_sorted_member(info_ids(v), id);
    assert(sorted.contains(id));
}

/// The plan says what is done: a tombstone that the plan marks is one that a
/// cleanup at the same time purges, and no other.
pub proof fn law_plan_matches_purge(
    st: FsState,
    c: ConfigView,
    toplevel: PathView,
    t: Seq<TombstoneView>,
    now: Moment,
    i: int,
)
    requires
        lists_tombstones(st, c, toplevel, t),
        0 <= i < t.len(),
    ensures
        would_purge(t[i], now, false) <==> expired_names(c, t, now).contains(t[i].name),
{
    lemma_expired_iff(st, c, toplevel, t, t, now, t[i].name);
    assert(crate::cleanup::tombstones::tombstone_names(t)[i] == t[i].name);
    crate::cleanup::tombstones::lemma_ascending_distinct(
        crate::cleanup::tombstones::tombstone_names(t),
    );
    if expired_names(c, t, now).contains(t[i].name) {
        let k = choose|k: int|
            0 <= k < t.len() && (#[trigger] t[k]).name == t[i].name && is_expired(
                c,
                t[k].id,
                now,
            );
        assert(crate::cleanup::tombstones::tombstone_names(t)[k]
            == crate::cleanup::tombstones::tombstone_names(t)[i]);
        assert(k == i);
    }
}

proof fn lemma_expired_iff(
    st: FsState,
    c: ConfigView,
    toplevel: PathView,
    t: Seq<TombstoneView>,
    v: Seq<TombstoneView>,
    now: Moment,
    n: Seq<char>,
)
    ensures
        expired_names(c, v, now).contains(n) <==> exists|k: int|
            0 <= k < v.len() && (#[trigger] v[k]).name == n && is_expired(c, v[k].id, now),
    decreases v.len(),
{
    if v.len() > 0 {
        let rest = v.drop_last();
        lemma_expired_iff(st, c, toplevel, t, rest, now, n);
        let e = expired_names(c, rest, now);
        let all = expired_names(c, v, now);
        if all.contains(n) {
            let k = choose|k: int| 0 <= k < all.len() && all[k] == n;
            if k < e.len() {
                assert(e[k] == n);
                let j = choose|j: int|
                    0 <= j < rest.len() && (#[trigger] rest[j]).name == n && is_expired(
                        c,
                        rest[j].id,
                        now,
                    );
                assert(v[j] == rest[j]);
            } else {
                assert(v[v.len() - 1] == v.last());
            }
        }
        if exists|k: int|
            0 <= k < v.len() && (#[trigger] v[k]).name == n && is_expired(c, v[k].id, now) {
            let k = choose|k: int|
                0 <= k < v.len() && (#[trigger] v[k]).name == n && is_expired(c, v[k].id, now);
            if k < rest.len() {
                assert(rest[k] == v[k]);
                let j = choose|j: int| 0 <= j < e.len() && e[j] == n;
                assert(all[j] == n);
            } else {
                assert(all[e.len() as int] == n);
            }
        }
    }
}

/// Retention never deletes a protected snapshot.
pub proof fn law_retention_spares_protected(
    all: Seq<InfoView>,
    strain: Seq<char>,
    retain: RetainConfig,
    i: int,
)
    requires
        0 <= i < of_strain(all, strain).len(),
        is_protected(of_strain(all, strain)[i].metadata),
    ensures
        !ids_of(dropped(all, strain, retain)).contains(of_strain(all, strain)[i].id),
{
    let v = of_strain(all, strain);
    law_protected_is_kept(v, retain, i);
    lemma_dropped_iff(v, retain, v, v[i].id);
}

} // verus!
