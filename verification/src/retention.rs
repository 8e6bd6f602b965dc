//! Tiered retention: which snapshots a policy keeps, and why.

use vstd::prelude::*;
use vstd::string::*;

use crate::assoc::{
    distinct_keys, lemma_lookup_at, lemma_lookup_none, lemma_lookup_push, lookup,
};
use crate::clock::{calendar, calendar_of, Calendar};
use crate::config::RetainConfig;
use crate::metadata::is_protected;
use crate::snapshot::id::{id_moment, SnapshotId};
use crate::snapshot::info::{InfoView, SnapshotInfo};
use crate::text::{
    lemma_text_less_irreflexive, lemma_text_less_transitive, lemma_views_push, precedes, same_text,
    text_less, views,
};

verus! {

/// Reason a snapshot is selected for retention. A snapshot may satisfy several
/// rules at once.
#[derive(Debug, Clone, Copy, PartialEq, Eq, Hash, Structural)]
pub enum KeepReason {
    Protected,
    Last,
    Hourly,
    Daily,
    Weekly,
    Monthly,
    Yearly,
}

/// The name of a reason.
pub open spec fn reason_text(k: KeepReason) -> Seq<char> {
    match k {
        KeepReason::Protected => "protected"@,
        KeepReason::Last => "last"@,
        KeepReason::Hourly => "hourly"@,
        KeepReason::Daily => "daily"@,
        KeepReason::Weekly => "weekly"@,
        KeepReason::Monthly => "monthly"@,
        KeepReason::Yearly => "yearly"@,
    }
}

impl KeepReason {
    /// The name of the reason.
    #[must_use]
    pub fn as_str(&self) -> (r: &'static str)
        ensures
            r@ == reason_text(*self),
    {
        match self {
            KeepReason::Protected => "protected",
            KeepReason::Last => "last",
            KeepReason::Hourly => "hourly",
            KeepReason::Daily => "daily",
            KeepReason::Weekly => "weekly",
            KeepReason::Monthly => "monthly",
            KeepReason::Yearly => "yearly",
        }
    }
}

/// `s` with `x` put behind everything that does not precede it.
pub open spec fn insert_newest(s: Seq<Seq<char>>, x: Seq<char>) -> Seq<Seq<char>>
    decreases s.len(),
{
    if s.len() == 0 {
        seq![x]
    } else if text_less(s[0], x) {
        seq![x] + s
    } else {
        seq![s[0]] + insert_newest(s.skip(1), x)
    }
}

/// IDs in descending order, which is newest first.
pub open spec fn newest_first(ids: Seq<Seq<char>>) -> Seq<Seq<char>>
    decreases ids.len(),
{
    if ids.len() == 0 {
        Seq::empty()
    } else {
        insert_newest(newest_first(ids.drop_last()), ids.last())
    }
}

/// The calendar period that two snapshots share under a bucket rule.
#[derive(Debug, Clone, Copy, PartialEq, Eq, Structural)]
pub struct Bucket {
    pub year: i32,
    pub first: u32,
    pub second: u32,
    pub third: u32,
}

/// The period that calendar fields fall into under a rule: clock-hour,
/// calendar-day, ISO week, calendar-month or calendar-year.
pub open spec fn bucket_of(rule: KeepReason, c: Calendar) -> Bucket {
    match rule {
        KeepReason::Hourly => Bucket {
            year: c.year,
            first: c.month,
            second: c.day,
            third: c.hour,
        },
        KeepReason::Daily => Bucket { year: c.year, first: c.month, second: c.day, third: 0 },
        KeepReason::Weekly => Bucket { year: c.iso_year, first: c.iso_week, second: 0, third: 0 },
        KeepReason::Monthly => Bucket { year: c.year, first: c.month, second: 0, third: 0 },
        _ => Bucket { year: c.year, first: 0, second: 0, third: 0 },
    }
}

/// The period that the snapshot with the given ID falls into under a rule.
pub open spec fn id_bucket(rule: KeepReason, id: Seq<char>) -> Bucket {
    bucket_of(rule, calendar_of(id_moment(id)->0.secs as int))
}

/// The periods of some IDs.
pub open spec fn buckets_of(rule: KeepReason, ids: Seq<Seq<char>>) -> Seq<Bucket> {
    Seq::new(ids.len(), |i: int| id_bucket(rule, ids[i]))
}

/// The IDs that a bucket rule picks out of a newest-first list: the newest of
/// each period, for up to `n` periods. An ID without a time is passed over.
pub open spec fn bucket_picks(ids: Seq<Seq<char>>, n: int, rule: KeepReason) -> Seq<Seq<char>>
    decreases ids.len(),
{
    if ids.len() == 0 {
        Seq::empty()
    } else {
        let rest = bucket_picks(ids.drop_last(), n, rule);
        let x = ids.last();
        if rest.len() < n && id_moment(x) is Some && !buckets_of(rule, rest).contains(
            id_bucket(rule, x),
        ) {
            rest.push(x)
        } else {
            rest
        }
    }
}

/// The IDs that a rule picks out of a newest-first list.
pub open spec fn picks(sorted: Seq<Seq<char>>, retain: RetainConfig, rule: KeepReason) -> Seq<
    Seq<char>,
> {
    match rule {
        KeepReason::Protected => Seq::empty(),
        KeepReason::Last => sorted.take(
            if retain.last <= sorted.len() {
                retain.last as int
            } else {
                sorted.len() as int
            },
        ),
        KeepReason::Hourly => bucket_picks(sorted, retain.hourly as int, rule),
        KeepReason::Daily => bucket_picks(sorted, retain.daily as int, rule),
        KeepReason::Weekly => bucket_picks(sorted, retain.weekly as int, rule),
        KeepReason::Monthly => bucket_picks(sorted, retain.monthly as int, rule),
        KeepReason::Yearly => bucket_picks(sorted, retain.yearly as int, rule),
    }
}

/// The IDs of the protected snapshots among `v`.
pub open spec fn protected_ids(v: Seq<InfoView>) -> Seq<Seq<char>>
    decreases v.len(),
{
    if v.len() == 0 {
        Seq::empty()
    } else if is_protected(v.last().metadata) {
        protected_ids(v.drop_last()).push(v.last().id)
    } else {
        protected_ids(v.drop_last())
    }
}

/// The IDs of some snapshots.
pub open spec fn info_ids(v: Seq<InfoView>) -> Seq<Seq<char>> {
    Seq::new(v.len(), |i: int| v[i].id)
}

/// `reasons` followed by `rule` once for each time that `id` occurs in `ids`.
pub open spec fn marked(
    reasons: Seq<KeepReason>,
    ids: Seq<Seq<char>>,
    id: Seq<char>,
    rule: KeepReason,
) -> Seq<KeepReason>
    decreases ids.len(),
{
    if ids.len() == 0 {
        reasons
    } else {
        let rest = marked(reasons, ids.drop_last(), id, rule);
        if ids.last() == id {
            rest.push(rule)
        } else {
            rest
        }
    }
}

/// The reasons for which the snapshot with the given ID is kept, in the order
/// protected, last, hourly, daily, weekly, monthly, yearly. None means that it
/// may be deleted.
pub open spec fn keep_reasons(v: Seq<InfoView>, retain: RetainConfig, id: Seq<char>) -> Seq<
    KeepReason,
> {
    let s = newest_first(info_ids(v));
    let r0 = marked(Seq::empty(), protected_ids(v), id, KeepReason::Protected);
    let r1 = marked(r0, picks(s, retain, KeepReason::Last), id, KeepReason::Last);
    let r2 = marked(r1, picks(s, retain, KeepReason::Hourly), id, KeepReason::Hourly);
    let r3 = marked(r2, picks(s, retain, KeepReason::Daily), id, KeepReason::Daily);
    let r4 = marked(r3, picks(s, retain, KeepReason::Weekly), id, KeepReason::Weekly);
    let r5 = marked(r4, picks(s, retain, KeepReason::Monthly), id, KeepReason::Monthly);
    marked(r5, picks(s, retain, KeepReason::Yearly), id, KeepReason::Yearly)
}

/// Whether the snapshot with the given ID is kept.
pub open spec fn is_kept(v: Seq<InfoView>, retain: RetainConfig, id: Seq<char>) -> bool {
    keep_reasons(v, retain, id).len() > 0
}

/// A kept snapshot's ID and the reasons for keeping it.
#[derive(Debug)]
pub struct KeepEntry {
    pub id: String,
    pub reasons: Vec<KeepReason>,
}

/// The kept snapshots by ID.
#[derive(Debug)]
pub struct KeepMap {
    /// The kept snapshots, each ID once.
    pub entries: Vec<KeepEntry>,
}

/// The IDs and reasons of some entries.
pub open spec fn keep_views(v: Seq<KeepEntry>) -> Seq<(Seq<char>, Seq<KeepReason>)> {
    Seq::new(v.len(), |i: int| (v[i].id@, v[i].reasons@))
}

impl View for KeepMap {
    type V = Seq<(Seq<char>, Seq<KeepReason>)>;

    open spec fn view(&self) -> Seq<(Seq<char>, Seq<KeepReason>)> {
        keep_views(self.entries@)
    }
}

/// The reasons found under an ID; none where it is not found.
pub open spec fn reasons_in(m: Seq<(Seq<char>, Seq<KeepReason>)>, id: Seq<char>) -> Seq<
    KeepReason,
> {
    match lookup(m, id) {
        Some(r) => r,
        None => Seq::empty(),
    }
}

/// Whether a map is in order: each ID occurs once, with at least one reason.
pub open spec fn keep_wf(m: Seq<(Seq<char>, Seq<KeepReason>)>) -> bool {
    &&& distinct_keys(m)
    &&& forall|i: int| 0 <= i < m.len() ==> (#[trigger] m[i]).1.len() > 0
}

impl KeepMap {
    fn position(&self, id: &str) -> (r: Option<usize>)
        ensures
            match r {
                Some(i) => i < self.entries@.len() && self@[i as int].0 == id@ && lookup(self@, id@)
                    == Some(self@[i as int].1) && forall|j: int|
                    0 <= j < i ==> (#[trigger] self@[j]).0 != id@,
                None => lookup(self@, id@) is None && forall|j: int|
                    0 <= j < self@.len() ==> (#[trigger] self@[j]).0 != id@,
            },
    {
        let mut i: usize = 0;
        while i < self.entries.len()
            invariant
                i <= self.entries.len(),
                forall|j: int| 0 <= j < i ==> (#[trigger] self@[j]).0 != id@,
            decreases self.entries.len() - i,
        {
            assert(self@[i as int].0 == self.entries@[i as int].id@);
            if same_text(self.entries[i].id.as_str(), id) {
                proof {
                    lemma_lookup_at(self@, id@, i as int);
                }
                return Some(i);
            }
            i = i + 1;
        }
        proof {
            lemma_lookup_none(self@, id@);
        }
        None
    }

    /// The reasons for keeping the snapshot with the given ID, if it is kept.
    pub fn get(&self, id: &str) -> (r: Option<&Vec<KeepReason>>)
        ensures
            match r {
                Some(v) => lookup(self@, id@) == Some(v@),
                None => lookup(self@, id@) is None,
            },
    {
        match self.position(id) {
            Some(i) => Some(&self.entries[i].reasons),
            None => None,
        }
    }

    /// Whether the snapshot with the given ID is kept.
    pub fn contains_key(&self, id: &str) -> (r: bool)
        ensures
            r == (lookup(self@, id@) is Some),
    {
        self.position(id).is_some()
    }

    /// Number of kept snapshots.
    pub fn len(&self) -> (r: usize)
        ensures
            r == self@.len(),
    {
        self.entries.len()
    }

    /// Adds a reason for keeping the snapshot with the given ID.
    fn mark(&mut self, id: &str, rule: KeepReason)
        requires
            keep_wf(old(self)@),
        ensures
            keep_wf(final(self)@),
            forall|x: Seq<char>| #[trigger]
                reasons_in(final(self)@, x) == if x == id@ {
                    reasons_in(old(self)@, x).push(rule)
                } else {
                    reasons_in(old(self)@, x)
                },
    {
        let ghost before = self@;
        match self.position(id) {
            Some(i) => {
                let mut reasons: Vec<KeepReason> = self.entries[i].reasons.clone();
                reasons.push(rule);
                let entry = KeepEntry { id: id.to_owned(), reasons };
                let ghost now = before.update(i as int, (id@, entry.reasons@));
                self.entries.set(i, entry);
                proof {
                    assert(self@ =~= now);
                    assert forall|x: Seq<char>| #[trigger] reasons_in(now, x) == if x == id@ {
                        reasons_in(before, x).push(rule)
                    } else {
                        reasons_in(before, x)
                    } by {
                        lemma_keep_update(before, id@, entry.reasons@, i as int, x);
                    }
                }
            },
            None => {
                let mut reasons: Vec<KeepReason> = Vec::new();
                reasons.push(rule);
                let entry = KeepEntry { id: id.to_owned(), reasons };
                self.entries.push(entry);
                proof {
                    assert(self@ =~= before.push((id@, entry.reasons@)));
                    assert(entry.reasons@ =~= Seq::<KeepReason>::empty().push(rule));
                    assert forall|x: Seq<char>| #[trigger] reasons_in(self@, x) == if x == id@ {
                        reasons_in(before, x).push(rule)
                    } else {
                        reasons_in(before, x)
                    } by {
                        lemma_lookup_push(before, id@, entry.reasons@, x);
                    }
                }
            },
        }
    }
}

proof fn lemma_keep_update(
    m: Seq<(Seq<char>, Seq<KeepReason>)>,
    id: Seq<char>,
    r: Seq<KeepReason>,
    i: int,
    x: Seq<char>,
)
    requires
        0 <= i < m.len(),
        m[i].0 == id,
        forall|j: int| 0 <= j < i ==> (#[trigger] m[j]).0 != id,
    ensures
        lookup(m.update(i, (id, r)), x) == if x == id {
            Some(r)
        } else {
            lookup(m, x)
        },
    decreases i,
{
    let u = m.update(i, (id, r));
    if i == 0 {
        assert(u.skip(1) =~= m.skip(1));
    } else {
        assert(u[0] == m[0]);
        assert(u.skip(1) =~= m.skip(1).update(i - 1, (id, r)));
        assert(m.skip(1)[i - 1] == m[i]);
        assert forall|j: int| 0 <= j < i - 1 implies (#[trigger] m.skip(1)[j]).0 != id by {
            assert(m.skip(1)[j] == m[j + 1]);
        }
        lemma_keep_update(m.skip(1), id, r, i - 1, x);
    }
}

/// The texts of some IDs.
pub open spec fn id_views(v: Seq<SnapshotId>) -> Seq<Seq<char>> {
    Seq::new(v.len(), |i: int| v[i]@)
}

proof fn lemma_insert_at(s: Seq<Seq<char>>, x: Seq<char>, k: int)
    requires
        0 <= k <= s.len(),
        forall|j: int| 0 <= j < k ==> !text_less(#[trigger] s[j], x),
        k < s.len() ==> text_less(s[k], x),
    ensures
        insert_newest(s, x) == s.insert(k, x),
    decreases k,
{
    if k == 0 {
        if s.len() == 0 {
            assert(seq![x] =~= s.insert(0, x));
        } else {
            assert(seq![x] + s =~= s.insert(0, x));
        }
    } else {
        let t = s.skip(1);
        assert forall|j: int| 0 <= j < k - 1 implies !text_less(#[trigger] t[j], x) by {
            assert(t[j] == s[j + 1]);
        }
        if k < s.len() {
            assert(t[k - 1] == s[k]);
        }
        lemma_insert_at(t, x, k - 1);
        assert(seq![s[0]] + t.insert(k - 1, x) =~= s.insert(k, x));
    }
}

pub(crate) fn sort_newest_first(snapshots: &Vec<&SnapshotInfo>) -> (r: Vec<SnapshotId>)
    ensures
        id_views(r@) == newest_first(info_ids(ref_views(snapshots@))),
{
    let ghost all = info_ids(ref_views(snapshots@));
    let mut out: Vec<SnapshotId> = Vec::new();
    let mut i: usize = 0;
    proof {
        assert(all.take(0) =~= Seq::empty());
        assert(id_views(out@) =~= Seq::empty());
    }
    while i < snapshots.len()
        invariant
            i <= snapshots.len(),
            all == info_ids(ref_views(snapshots@)),
            id_views(out@) == newest_first(all.take(i as int)),
        decreases snapshots.len() - i,
    {
        let id = snapshots[i].id.clone();
        let ghost before = id_views(out@);
        let mut k: usize = 0;
        while k < out.len() && !precedes(out[k].as_str(), id.as_str())
            invariant
                k <= out.len(),
                before == id_views(out@),
                forall|j: int| 0 <= j < k ==> !text_less(#[trigger] before[j], id@),
            decreases out.len() - k,
        {
            assert(before[k as int] == out@[k as int]@);
            k = k + 1;
        }
        proof {
            if k < out.len() {
                assert(before[k as int] == out@[k as int]@);
            }
            lemma_insert_at(before, id@, k as int);
            assert(id_views(out@.insert(k as int, id)) =~= before.insert(k as int, id@));
            assert(all.take(i + 1).drop_last() =~= all.take(i as int));
            assert(all.take(i + 1).last() == id@);
        }
        out.insert(k, id);
        i = i + 1;
    }
    assert(all.take(all.len() as int) =~= all);
    out
}

/// The snapshots that some references point to.
pub open spec fn ref_views(v: Seq<&SnapshotInfo>) -> Seq<InfoView> {
    Seq::new(v.len(), |i: int| v[i]@)
}

fn bucket(rule: KeepReason, c: &Calendar) -> (r: Bucket)
    ensures
        r == bucket_of(rule, *c),
{
    match rule {
        KeepReason::Hourly => Bucket {
            year: c.year,
            first: c.month,
            second: c.day,
            third: c.hour,
        },
        KeepReason::Daily => Bucket { year: c.year, first: c.month, second: c.day, third: 0 },
        KeepReason::Weekly => Bucket { year: c.iso_year, first: c.iso_week, second: 0, third: 0 },
        KeepReason::Monthly => Bucket { year: c.year, first: c.month, second: 0, third: 0 },
        _ => Bucket { year: c.year, first: 0, second: 0, third: 0 },
    }
}

fn has_bucket(v: &Vec<Bucket>, b: &Bucket) -> (r: bool)
    ensures
        r == v@.contains(*b),
{
    let mut i: usize = 0;
    while i < v.len()
        invariant
            i <= v.len(),
            forall|j: int| 0 <= j < i ==> v@[j] != *b,
        decreases v.len() - i,
    {
        if v[i] == *b {
            return true;
        }
        i = i + 1;
    }
    false
}

/// Adds `rule` to the reasons of the IDs that the bucket rule picks.
fn mark_bucket(sorted: &Vec<SnapshotId>, count: usize, rule: KeepReason, keep: &mut KeepMap)
    requires
        keep_wf(old(keep)@),
    ensures
        keep_wf(final(keep)@),
        forall|x: Seq<char>| #[trigger]
            reasons_in(final(keep)@, x) == marked(
                reasons_in(old(keep)@, x),
                bucket_picks(id_views(sorted@), count as int, rule),
                x,
                rule,
            ),
{
    let ghost all = id_views(sorted@);
    let ghost before = keep@;
    let mut seen: Vec<Bucket> = Vec::new();
    let mut i: usize = 0;
    proof {
        assert(all.take(0) =~= Seq::empty());
        assert(seen@ =~= buckets_of(rule, Seq::empty()));
    }
    while i < sorted.len()
        invariant
            i <= sorted.len(),
            all == id_views(sorted@),
            before == old(keep)@,
            keep_wf(keep@),
            seen@ == buckets_of(rule, bucket_picks(all.take(i as int), count as int, rule)),
            forall|x: Seq<char>| #[trigger]
                reasons_in(keep@, x) == marked(
                    reasons_in(before, x),
                    bucket_picks(all.take(i as int), count as int, rule),
                    x,
                    rule,
                ),
        decreases sorted.len() - i,
    {
        let id = &sorted[i];
        let ghost picked = bucket_picks(all.take(i as int), count as int, rule);
        proof {
            assert(all.take(i + 1).drop_last() =~= all.take(i as int));
            assert(all.take(i + 1).last() == id@);
            assert(seen@.len() == picked.len());
        }
        if seen.len() < count {
            match id.created_at() {
                Some(m) => {
                    let c = calendar(m.secs);
                    let b = bucket(rule, &c);
                    if !has_bucket(&seen, &b) {
                        let ghost was = keep@;
                        keep.mark(id.as_str(), rule);
                        proof {
                            let now = picked.push(id@);
                            assert(buckets_of(rule, now) =~= buckets_of(rule, picked).push(b));
                            assert(now.drop_last() =~= picked);
                            assert forall|x: Seq<char>| #[trigger] reasons_in(keep@, x) == marked(
                                reasons_in(before, x),
                                now,
                                x,
                                rule,
                            ) by {
                                assert(reasons_in(was, x) == marked(
                                    reasons_in(before, x),
                                    picked,
                                    x,
                                    rule,
                                ));
                            }
                        }
                        seen.push(b);
                    }
                },
                None => {},
            }
        }
        i = i + 1;
    }
    assert(all.take(all.len() as int) =~= all);
}

/// Given a list of snapshots and a policy, return, for each kept snapshot, the
/// rules that keep it. Snapshots absent from the result may be deleted.
#[must_use]
pub fn select_to_keep_explained(snapshots: &Vec<&SnapshotInfo>, retain: &RetainConfig) -> (keep:
    KeepMap)
    ensures
        keep_wf(keep@),
        forall|id: Seq<char>| #[trigger]
            reasons_in(keep@, id) == keep_reasons(ref_views(snapshots@), *retain, id),
        forall|id: Seq<char>| #[trigger]
            lookup(keep@, id) is Some <==> is_kept(ref_views(snapshots@), *retain, id),
{
    let ghost v = ref_views(snapshots@);
    let sorted = sort_newest_first(snapshots);
    let ghost s = newest_first(info_ids(v));
    let mut keep = KeepMap { entries: Vec::new() };
    let mut i: usize = 0;
    proof {
        assert(keep@ =~= Seq::empty());
        assert(v.take(0) =~= Seq::empty());
    }
    while i < snapshots.len()
        invariant
            i <= snapshots.len(),
            v == ref_views(snapshots@),
            keep_wf(keep@),
            forall|x: Seq<char>| #[trigger]
                reasons_in(keep@, x) == marked(
                    Seq::empty(),
                    protected_ids(v.take(i as int)),
                    x,
                    KeepReason::Protected,
                ),
        decreases snapshots.len() - i,
    {
        let snap = snapshots[i];
        let protected: bool = match &snap.metadata {
            Some(m) => m.protected,
            None => false,
        };
        proof {
            assert(v.take(i + 1).drop_last() =~= v.take(i as int));
            assert(v.take(i + 1).last() == snap@);
        }
        if protected {
            let ghost was = keep@;
            let ghost done = protected_ids(v.take(i as int));
            keep.mark(snap.id.as_str(), KeepReason::Protected);
            proof {
                let now = done.push(snap@.id);
                assert(now.drop_last() =~= done);
                assert forall|x: Seq<char>| #[trigger] reasons_in(keep@, x) == marked(
                    Seq::empty(),
                    now,
                    x,
                    KeepReason::Protected,
                ) by {
                    assert(reasons_in(was, x) == marked(
                        Seq::empty(),
                        done,
                        x,
                        KeepReason::Protected,
                    ));
                }
            }
        }
        i = i + 1;
    }
    let ghost k0 = keep@;
    proof {
        assert(v.take(v.len() as int) =~= v);
    }
    let n: usize = if retain.last <= sorted.len() {
        retain.last
    } else {
        sorted.len()
    };
    let mut j: usize = 0;
    proof {
        assert(s.take(0) =~= Seq::empty());
        assert(s.len() == sorted@.len());
    }
    while j < n
        invariant
            j <= n <= sorted.len(),
            s == id_views(sorted@),
            keep_wf(keep@),
            forall|x: Seq<char>| #[trigger]
                reasons_in(keep@, x) == marked(
                    reasons_in(k0, x),
                    s.take(j as int),
                    x,
                    KeepReason::Last,
                ),
        decreases n - j,
    {
        let ghost was = keep@;
        proof {
            assert(s[j as int] == sorted@[j as int]@);
            assert(s.take(j + 1).drop_last() =~= s.take(j as int));
            assert(s.take(j + 1).last() == s[j as int]);
        }
        keep.mark(sorted[j].as_str(), KeepReason::Last);
        proof {
            assert forall|x: Seq<char>| #[trigger] reasons_in(keep@, x) == marked(
                reasons_in(k0, x),
                s.take(j + 1),
                x,
                KeepReason::Last,
            ) by {
                assert(reasons_in(was, x) == marked(
                    reasons_in(k0, x),
                    s.take(j as int),
                    x,
                    KeepReason::Last,
                ));
            }
        }
        j = j + 1;
    }
    let ghost k1 = keep@;
    mark_bucket(&sorted, retain.hourly, KeepReason::Hourly, &mut keep);
    let ghost k2 = keep@;
    mark_bucket(&sorted, retain.daily, KeepReason::Daily, &mut keep);
    let ghost k3 = keep@;
    mark_bucket(&sorted, retain.weekly, KeepReason::Weekly, &mut keep);
    let ghost k4 = keep@;
    mark_bucket(&sorted, retain.monthly, KeepReason::Monthly, &mut keep);
    let ghost k5 = keep@;
    mark_bucket(&sorted, retain.yearly, KeepReason::Yearly, &mut keep);
    proof {
        assert forall|id: Seq<char>| #[trigger] reasons_in(keep@, id) == keep_reasons(
            v,
            *retain,
            id,
        ) by {
            assert(reasons_in(k5, id) == marked(
                reasons_in(k4, id),
                picks(s, *retain, KeepReason::Monthly),
                id,
                KeepReason::Monthly,
            ));
            assert(reasons_in(k4, id) == marked(
                reasons_in(k3, id),
                picks(s, *retain, KeepReason::Weekly),
                id,
                KeepReason::Weekly,
            ));
            assert(reasons_in(k3, id) == marked(
                reasons_in(k2, id),
                picks(s, *retain, KeepReason::Daily),
                id,
                KeepReason::Daily,
            ));
            assert(reasons_in(k2, id) == marked(
                reasons_in(k1, id),
                picks(s, *retain, KeepReason::Hourly),
                id,
                KeepReason::Hourly,
            ));
            assert(reasons_in(k1, id) == marked(
                reasons_in(k0, id),
                picks(s, *retain, KeepReason::Last),
                id,
                KeepReason::Last,
            ));
            assert(reasons_in(k0, id) == marked(
                Seq::empty(),
                protected_ids(v),
                id,
                KeepReason::Protected,
            ));
        }
        assert forall|id: Seq<char>| #[trigger] lookup(keep@, id) is Some <==> is_kept(
            v,
            *retain,
            id,
        ) by {
            assert(reasons_in(keep@, id) == keep_reasons(v, *retain, id));
            if lookup(keep@, id) is Some {
                let k = crate::assoc::lemma_lookup_index(keep@, id);
                assert(keep@[k].1.len() > 0);
            }
        }
    }
    keep
}

/// The IDs of the snapshots to keep, each once. Everything else may be
/// deleted.
#[must_use]
pub fn select_to_keep(snapshots: &Vec<&SnapshotInfo>, retain: &RetainConfig) -> (r: Vec<String>)
    ensures
        forall|id: Seq<char>| #[trigger]
            views(r@).contains(id) <==> is_kept(ref_views(snapshots@), *retain, id),
        views(r@).no_duplicates(),
{
    let keep = select_to_keep_explained(snapshots, retain);
    let mut out: Vec<String> = Vec::new();
    let mut i: usize = 0;
    while i < keep.entries.len()
        invariant
            i <= keep.entries.len(),
            out.len() == i,
            forall|j: int| 0 <= j < i ==> #[trigger] views(out@)[j] == keep@[j].0,
        decreases keep.entries.len() - i,
    {
        let id: String = keep.entries[i].id.clone();
        proof {
            lemma_views_push(out@, id);
        }
        out.push(id);
        i = i + 1;
    }
    proof {
        assert forall|id: Seq<char>| #[trigger] views(out@).contains(id) <==> is_kept(
            ref_views(snapshots@),
            *retain,
            id,
        ) by {
            assert(lookup(keep@, id) is Some <==> is_kept(ref_views(snapshots@), *retain, id));
            if lookup(keep@, id) is Some {
                let k = crate::assoc::lemma_lookup_index(keep@, id);
                assert(views(out@)[k] == id);
            }
            if views(out@).contains(id) {
                let k = choose|k: int| 0 <= k < views(out@).len() && views(out@)[k] == id;
                crate::assoc::lemma_lookup_distinct(keep@, k);
            }
        }
        assert forall|i: int, j: int|
            0 <= i < views(out@).len() && 0 <= j < views(out@).len() && i != j implies views(
            out@,
        )[i] != views(out@)[j] by {
            assert(keep@[i].0 != keep@[j].0);
        }
    }
    out
}

proof fn lemma_marked(
    reasons: Seq<KeepReason>,
    ids: Seq<Seq<char>>,
    id: Seq<char>,
    rule: KeepReason,
)
    ensures
        reasons.is_prefix_of(marked(reasons, ids, id, rule)),
        ids.contains(id) <==> marked(reasons, ids, id, rule).len() > reasons.len(),
        forall|k: int|
            reasons.len() <= k < marked(reasons, ids, id, rule).len() ==> #[trigger] marked(
                reasons,
                ids,
                id,
                rule,
            )[k] == rule,
    decreases ids.len(),
{
    if ids.len() > 0 {
        lemma_marked(reasons, ids.drop_last(), id, rule);
        let rest = marked(reasons, ids.drop_last(), id, rule);
        if ids.last() == id {
            assert(ids[ids.len() - 1] == id);
            assert(ids.contains(id));
            assert(reasons =~= rest.push(rule).subrange(0, reasons.len() as int));
        } else {
            if ids.contains(id) {
                let k = choose|k: int| 0 <= k < ids.len() && ids[k] == id;
                assert(ids.drop_last()[k] == id);
            }
            if ids.drop_last().contains(id) {
                let k = choose|k: int| 0 <= k < ids.drop_last().len() && ids.drop_last()[k] == id;
                assert(ids[k] == id);
            }
        }
    } else {
        assert(reasons =~= reasons.subrange(0, reasons.len() as int));
    }
}

/// The reasons for keeping an ID say exactly which rules pick it.
proof fn lemma_reasons(v: Seq<InfoView>, retain: RetainConfig, id: Seq<char>)
    ensures
        is_kept(v, retain, id) <==> protected_ids(v).contains(id) || exists|rule: KeepReason|
            #[trigger] picks(newest_first(info_ids(v)), retain, rule).contains(id),
        protected_ids(v).contains(id) ==> keep_reasons(v, retain, id).len() > 0 && keep_reasons(
            v,
            retain,
            id,
        )[0] == KeepReason::Protected,
        forall|rule: KeepReason|
            #[trigger] picks(newest_first(info_ids(v)), retain, rule).contains(id)
                ==> keep_reasons(v, retain, id).contains(rule),
{
    let s = newest_first(info_ids(v));
    let (p1, p2, p3) = (
        picks(s, retain, KeepReason::Last),
        picks(s, retain, KeepReason::Hourly),
        picks(s, retain, KeepReason::Daily),
    );
    let (p4, p5, p6) = (
        picks(s, retain, KeepReason::Weekly),
        picks(s, retain, KeepReason::Monthly),
        picks(s, retain, KeepReason::Yearly),
    );
    let r0 = marked(Seq::empty(), protected_ids(v), id, KeepReason::Protected);
    let r1 = marked(r0, p1, id, KeepReason::Last);
    let r2 = marked(r1, p2, id, KeepReason::Hourly);
    let r3 = marked(r2, p3, id, KeepReason::Daily);
    let r4 = marked(r3, p4, id, KeepReason::Weekly);
    let r5 = marked(r4, p5, id, KeepReason::Monthly);
    let r6 = marked(r5, p6, id, KeepReason::Yearly);
    lemma_marked(Seq::empty(), protected_ids(v), id, KeepReason::Protected);
    lemma_marked(r0, p1, id, KeepReason::Last);
    lemma_marked(r1, p2, id, KeepReason::Hourly);
    lemma_marked(r2, p3, id, KeepReason::Daily);
    lemma_marked(r3, p4, id, KeepReason::Weekly);
    lemma_marked(r4, p5, id, KeepReason::Monthly);
    lemma_marked(r5, p6, id, KeepReason::Yearly);
    assert(r6 == keep_reasons(v, retain, id));
    lemma_prefix_chain(r0, r1, r6);
    lemma_prefix_chain(r1, r2, r6);
    lemma_prefix_chain(r2, r3, r6);
    lemma_prefix_chain(r3, r4, r6);
    lemma_prefix_chain(r4, r5, r6);
    assert(r5.is_prefix_of(r6));
    assert forall|rule: KeepReason| #[trigger] picks(s, retain, rule).contains(
        id,
    ) implies r6.contains(rule) by {
        let k = match rule {
            KeepReason::Protected => 0,
            KeepReason::Last => r0.len() as int,
            KeepReason::Hourly => r1.len() as int,
            KeepReason::Daily => r2.len() as int,
            KeepReason::Weekly => r3.len() as int,
            KeepReason::Monthly => r4.len() as int,
            KeepReason::Yearly => r5.len() as int,
        };
        lemma_prefix_all(r0, r1, r2, r3, r4, r5, r6);
        match rule {
            KeepReason::Protected => {},
            KeepReason::Last => {
                assert(r1[k] == rule);
                assert(r6[k] == r1[k]);
            },
            KeepReason::Hourly => {
                assert(r2[k] == rule);
                assert(r6[k] == r2[k]);
            },
            KeepReason::Daily => {
                assert(r3[k] == rule);
                assert(r6[k] == r3[k]);
            },
            KeepReason::Weekly => {
                assert(r4[k] == rule);
                assert(r6[k] == r4[k]);
            },
            KeepReason::Monthly => {
                assert(r5[k] == rule);
                assert(r6[k] == r5[k]);
            },
            KeepReason::Yearly => {
                assert(r6[k] == rule);
            },
        }
    }
    lemma_prefix_all(r0, r1, r2, r3, r4, r5, r6);
    if protected_ids(v).contains(id) {
        assert(r0[0] == KeepReason::Protected);
        assert(r6[0] == r0[0]);
    }
    if r6.len() > 0 && !protected_ids(v).contains(id) {
        assert(p1.contains(id) || p2.contains(id) || p3.contains(id) || p4.contains(id)
            || p5.contains(id) || p6.contains(id));
    }
    if exists|rule: KeepReason| #[trigger] picks(s, retain, rule).contains(id) {
        let rule = choose|rule: KeepReason| #[trigger] picks(s, retain, rule).contains(id);
        assert(r6.contains(rule));
    }
}

/// A rule is among the reasons for keeping an ID exactly if it picks the ID.
pub proof fn lemma_reason_rules(
    v: Seq<InfoView>,
    retain: RetainConfig,
    id: Seq<char>,
    rule: KeepReason,
)
    ensures
        keep_reasons(v, retain, id).contains(rule) <==> if rule == KeepReason::Protected {
            protected_ids(v).contains(id)
        } else {
            picks(newest_first(info_ids(v)), retain, rule).contains(id)
        },
        forall|a: int, b: int|
            0 <= a < b < keep_reasons(v, retain, id).len() ==> rank(
                #[trigger] keep_reasons(v, retain, id)[a],
            ) <= rank(#[trigger] keep_reasons(v, retain, id)[b]),
{
    let s = newest_first(info_ids(v));
    let (p1, p2, p3) = (
        picks(s, retain, KeepReason::Last),
        picks(s, retain, KeepReason::Hourly),
        picks(s, retain, KeepReason::Daily),
    );
    let (p4, p5, p6) = (
        picks(s, retain, KeepReason::Weekly),
        picks(s, retain, KeepReason::Monthly),
        picks(s, retain, KeepReason::Yearly),
    );
    let r0 = marked(Seq::empty(), protected_ids(v), id, KeepReason::Protected);
    let r1 = marked(r0, p1, id, KeepReason::Last);
    let r2 = marked(r1, p2, id, KeepReason::Hourly);
    let r3 = marked(r2, p3, id, KeepReason::Daily);
    let r4 = marked(r3, p4, id, KeepReason::Weekly);
    let r5 = marked(r4, p5, id, KeepReason::Monthly);
    let r6 = marked(r5, p6, id, KeepReason::Yearly);
    lemma_marked(Seq::empty(), protected_ids(v), id, KeepReason::Protected);
    lemma_marked(r0, p1, id, KeepReason::Last);
    lemma_marked(r1, p2, id, KeepReason::Hourly);
    lemma_marked(r2, p3, id, KeepReason::Daily);
    lemma_marked(r3, p4, id, KeepReason::Weekly);
    lemma_marked(r4, p5, id, KeepReason::Monthly);
    lemma_marked(r5, p6, id, KeepReason::Yearly);
    assert(r6 == keep_reasons(v, retain, id));
    lemma_prefix_all(r0, r1, r2, r3, r4, r5, r6);
    assert forall|k: int| 0 <= k < r6.len() implies #[trigger] r6[k] == if k < r0.len() {
        KeepReason::Protected
    } else if k < r1.len() {
        KeepReason::Last
    } else if k < r2.len() {
        KeepReason::Hourly
    } else if k < r3.len() {
        KeepReason::Daily
    } else if k < r4.len() {
        KeepReason::Weekly
    } else if k < r5.len() {
        KeepReason::Monthly
    } else {
        KeepReason::Yearly
    } by {
        if k < r0.len() {
            assert(r6[k] == r0[k]);
        } else if k < r1.len() {
            assert(r6[k] == r1[k]);
        } else if k < r2.len() {
            assert(r6[k] == r2[k]);
        } else if k < r3.len() {
            assert(r6[k] == r3[k]);
        } else if k < r4.len() {
            assert(r6[k] == r4[k]);
        } else if k < r5.len() {
            assert(r6[k] == r5[k]);
        }
    }
    lemma_reasons(v, retain, id);
    if rule == KeepReason::Protected && protected_ids(v).contains(id) {
        assert(r6[0] == rule);
    }
    if r6.contains(rule) {
        let k = choose|k: int| 0 <= k < r6.len() && r6[k] == rule;
        assert(r6[k] == rule);
    }
}

/// The place of a rule in the order in which reasons are given.
pub open spec fn rank(rule: KeepReason) -> int {
    match rule {
        KeepReason::Protected => 0,
        KeepReason::Last => 1,
        KeepReason::Hourly => 2,
        KeepReason::Daily => 3,
        KeepReason::Weekly => 4,
        KeepReason::Monthly => 5,
        KeepReason::Yearly => 6,
    }
}

proof fn lemma_prefix_chain(a: Seq<KeepReason>, b: Seq<KeepReason>, c: Seq<KeepReason>)
    requires
        a.is_prefix_of(b),
    ensures
        b.is_prefix_of(c) ==> a.is_prefix_of(c),
{
    if b.is_prefix_of(c) {
        assert(a =~= c.subrange(0, a.len() as int)) by {
            assert forall|i: int| 0 <= i < a.len() implies a[i] == c[i] by {
                assert(a[i] == b.subrange(0, a.len() as int)[i]);
                assert(b[i] == c.subrange(0, b.len() as int)[i]);
            }
        }
    }
}

proof fn lemma_prefix_all(
    r0: Seq<KeepReason>,
    r1: Seq<KeepReason>,
    r2: Seq<KeepReason>,
    r3: Seq<KeepReason>,
    r4: Seq<KeepReason>,
    r5: Seq<KeepReason>,
    r6: Seq<KeepReason>,
)
    requires
        r0.is_prefix_of(r1),
        r1.is_prefix_of(r2),
        r2.is_prefix_of(r3),
        r3.is_prefix_of(r4),
        r4.is_prefix_of(r5),
        r5.is_prefix_of(r6),
    ensures
        forall|k: int| 0 <= k < r0.len() ==> r6[k] == #[trigger] r0[k],
        forall|k: int| 0 <= k < r1.len() ==> r6[k] == #[trigger] r1[k],
        forall|k: int| 0 <= k < r2.len() ==> r6[k] == #[trigger] r2[k],
        forall|k: int| 0 <= k < r3.len() ==> r6[k] == #[trigger] r3[k],
        forall|k: int| 0 <= k < r4.len() ==> r6[k] == #[trigger] r4[k],
        forall|k: int| 0 <= k < r5.len() ==> r6[k] == #[trigger] r5[k],
        r0.len() <= r1.len() <= r2.len() <= r3.len() <= r4.len() <= r5.len() <= r6.len(),
{
    lemma_prefix_chain(r4, r5, r6);
    lemma_prefix_chain(r3, r4, r6);
    lemma_prefix_chain(r2, r3, r6);
    lemma_prefix_chain(r1, r2, r6);
    lemma_prefix_chain(r0, r1, r6);
    assert forall|k: int| 0 <= k < r0.len() implies r6[k] == #[trigger] r0[k] by {
        assert(r0[k] == r6.subrange(0, r0.len() as int)[k]);
    }
    assert forall|k: int| 0 <= k < r1.len() implies r6[k] == #[trigger] r1[k] by {
        assert(r1[k] == r6.subrange(0, r1.len() as int)[k]);
    }
    assert forall|k: int| 0 <= k < r2.len() implies r6[k] == #[trigger] r2[k] by {
        assert(r2[k] == r6.subrange(0, r2.len() as int)[k]);
    }
    assert forall|k: int| 0 <= k < r3.len() implies r6[k] == #[trigger] r3[k] by {
        assert(r3[k] == r6.subrange(0, r3.len() as int)[k]);
    }
    assert forall|k: int| 0 <= k < r4.len() implies r6[k] == #[trigger] r4[k] by {
        assert(r4[k] == r6.subrange(0, r4.len() as int)[k]);
    }
    assert forall|k: int| 0 <= k < r5.len() implies r6[k] == #[trigger] r5[k] by {
        assert(r5[k] == r6.subrange(0, r5.len() as int)[k]);
    }
}

pub proof fn lemma_protected_ids(v: Seq<InfoView>, i: int)
    requires
        0 <= i < v.len(),
        is_protected(v[i].metadata),
    ensures
        protected_ids(v).contains(v[i].id),
    decreases v.len(),
{
    let rest = protected_ids(v.drop_last());
    if i == v.len() - 1 {
        let p = rest.push(v[i].id);
        assert(p[p.len() - 1] == v[i].id);
    } else {
        lemma_protected_ids(v.drop_last(), i);
        let k = choose|k: int| 0 <= k < rest.len() && rest[k] == v[i].id;
        assert(protected_ids(v)[k] == v[i].id);
    }
}

pub proof fn lemma_protected_given(v: Seq<InfoView>, id: Seq<char>) -> (j: int)
    requires
        protected_ids(v).contains(id),
    ensures
        0 <= j < v.len(),
        v[j].id == id,
        is_protected(v[j].metadata),
        info_ids(v).contains(id),
    decreases v.len(),
{
    let k = choose|k: int| 0 <= k < protected_ids(v).len() && protected_ids(v)[k] == id;
    let rest = protected_ids(v.drop_last());
    if is_protected(v.last().metadata) && k == rest.len() {
        assert(info_ids(v)[v.len() - 1] == id);
        v.len() - 1
    } else {
        assert(rest[k] == id);
        let j = lemma_protected_given(v.drop_last(), id);
        assert(info_ids(v)[j] == id);
        j
    }
}

proof fn lemma_insert_newest(s: Seq<Seq<char>>, x: Seq<char>)
    ensures
        insert_newest(s, x).len() == s.len() + 1,
        insert_newest(s, x).to_multiset() == s.to_multiset().insert(x),
        is_descending(s) ==> is_descending(insert_newest(s, x)),
        s.len() > 0 ==> insert_newest(s, x)[0] == x || insert_newest(s, x)[0] == s[0],
    decreases s.len(),
{
    broadcast use vstd::seq_lib::group_to_multiset_ensures;

    if s.len() == 0 {
        assert(seq![x] =~= s.push(x));
    } else if text_less(s[0], x) {
        let t = seq![x] + s;
        assert(t =~= s.insert(0, x));
        if is_descending(s) {
            assert forall|i: int, j: int| 0 <= i < j < t.len() implies !text_less(
                #[trigger] t[i],
                #[trigger] t[j],
            ) by {
                if i == 0 {
                    lemma_text_less_irreflexive(x);
                    if text_less(x, s[j - 1]) {
                        lemma_text_less_transitive(s[0], x, s[j - 1]);
                        if j - 1 == 0 {
                            lemma_text_less_irreflexive(s[0]);
                        }
                    }
                } else {
                    assert(!text_less(s[i - 1], s[j - 1]));
                }
            }
        }
    } else {
        let r = s.skip(1);
        lemma_insert_newest(r, x);
        let u = insert_newest(r, x);
        let t = seq![s[0]] + u;
        assert(t =~= u.insert(0, s[0]));
        assert(s =~= r.insert(0, s[0]));
        assert(s.to_multiset().insert(x) =~= t.to_multiset());
        if is_descending(s) {
            assert(is_descending(r)) by {
                assert forall|i: int, j: int| 0 <= i < j < r.len() implies !text_less(
                    #[trigger] r[i],
                    #[trigger] r[j],
                ) by {
                    assert(!text_less(s[i + 1], s[j + 1]));
                }
            }
            assert forall|i: int, j: int| 0 <= i < j < t.len() implies !text_less(
                #[trigger] t[i],
                #[trigger] t[j],
            ) by {
                if i == 0 {
                    let y = u[j - 1];
                    assert(u.to_multiset().count(y) > 0);
                    if y != x {
                        assert(r.to_multiset().count(y) > 0);
                        let k = choose|k: int| 0 <= k < r.len() && r[k] == y;
                        assert(!text_less(s[0], s[k + 1]));
                    }
                } else {
                    assert(!text_less(u[i - 1], u[j - 1]));
                }
            }
        }
    }
}

/// Whether no element precedes a later one.
pub open spec fn is_descending(s: Seq<Seq<char>>) -> bool {
    forall|i: int, j: int|
        0 <= i < j < s.len() ==> !text_less(#[trigger] s[i], #[trigger] s[j])
}

/// Newest first holds the same IDs, in descending order.
pub proof fn law_newest_first_sorts(ids: Seq<Seq<char>>)
    ensures
        newest_first(ids).len() == ids.len(),
        newest_first(ids).to_multiset() == ids.to_multiset(),
        is_descending(newest_first(ids)),
    decreases ids.len(),
{
    broadcast use vstd::seq_lib::group_to_multiset_ensures;

    if ids.len() > 0 {
        law_newest_first_sorts(ids.drop_last());
        lemma_insert_newest(newest_first(ids.drop_last()), ids.last());
        assert(ids =~= ids.drop_last().push(ids.last()));
    }
}

/// Sorting keeps the members.
pub proof fn lemma_sorted_member(ids: Seq<Seq<char>>, id: Seq<char>)
    ensures
        newest_first(ids).contains(id) <==> ids.contains(id),
{
    broadcast use vstd::seq_lib::group_to_multiset_ensures;

    law_newest_first_sorts(ids);
    assert(newest_first(ids).contains(id) <==> newest_first(ids).to_multiset().count(id) > 0);
    assert(ids.contains(id) <==> ids.to_multiset().count(id) > 0);
}

pub proof fn lemma_bucket_picks_given(ids: Seq<Seq<char>>, n: int, rule: KeepReason, id: Seq<char>)
    requires
        bucket_picks(ids, n, rule).contains(id),
    ensures
        ids.contains(id),
        id_moment(id) is Some,
    decreases ids.len(),
{
    let p = bucket_picks(ids, n, rule);
    let rest = bucket_picks(ids.drop_last(), n, rule);
    let k = choose|k: int| 0 <= k < p.len() && p[k] == id;
    if k < rest.len() {
        assert(rest[k] == id);
        lemma_bucket_picks_given(ids.drop_last(), n, rule, id);
        let j = choose|j: int| 0 <= j < ids.drop_last().len() && ids.drop_last()[j] == id;
        assert(ids[j] == id);
    } else {
        assert(ids[ids.len() - 1] == id);
    }
}

/// A protected snapshot is kept whatever the policy, and that is the first
/// reason given.
pub proof fn law_protected_is_kept(v: Seq<InfoView>, retain: RetainConfig, i: int)
    requires
        0 <= i < v.len(),
        is_protected(v[i].metadata),
    ensures
        is_kept(v, retain, v[i].id),
        keep_reasons(v, retain, v[i].id)[0] == KeepReason::Protected,
{
    lemma_protected_ids(v, i);
    lemma_reasons(v, retain, v[i].id);
}

/// Only snapshots of the list are kept.
pub proof fn law_only_given_are_kept(v: Seq<InfoView>, retain: RetainConfig, id: Seq<char>)
    requires
        is_kept(v, retain, id),
    ensures
        info_ids(v).contains(id),
{
    let ids = info_ids(v);
    let s = newest_first(ids);
    lemma_reasons(v, retain, id);
    lemma_sorted_member(ids, id);
    if protected_ids(v).contains(id) {
        lemma_protected_given(v, id);
    } else {
        let rule = choose|rule: KeepReason| #[trigger] picks(s, retain, rule).contains(id);
        match rule {
            KeepReason::Protected => {},
            KeepReason::Last => {
                let p = picks(s, retain, rule);
                let k = choose|k: int| 0 <= k < p.len() && p[k] == id;
                assert(s[k] == id);
            },
            KeepReason::Hourly => {
                lemma_bucket_picks_given(s, retain.hourly as int, rule, id);
            },
            KeepReason::Daily => {
                lemma_bucket_picks_given(s, retain.daily as int, rule, id);
            },
            KeepReason::Weekly => {
                lemma_bucket_picks_given(s, retain.weekly as int, rule, id);
            },
            KeepReason::Monthly => {
                lemma_bucket_picks_given(s, retain.monthly as int, rule, id);
            },
            KeepReason::Yearly => {
                lemma_bucket_picks_given(s, retain.yearly as int, rule, id);
            },
        }
    }
}

/// The most recent snapshots are kept, as many as the policy says.
pub proof fn law_last_are_kept(v: Seq<InfoView>, retain: RetainConfig, k: int)
    requires
        0 <= k < v.len(),
        k < retain.last,
    ensures
        is_kept(v, retain, newest_first(info_ids(v))[k]),
        keep_reasons(v, retain, newest_first(info_ids(v))[k]).contains(KeepReason::Last),
{
    let s = newest_first(info_ids(v));
    law_newest_first_sorts(info_ids(v));
    let p = picks(s, retain, KeepReason::Last);
    assert(p[k] == s[k]);
    assert(p.contains(s[k]));
    lemma_reasons(v, retain, s[k]);
}

proof fn lemma_first_picked(ids: Seq<Seq<char>>, n: int, rule: KeepReason)
    requires
        ids.len() > 0,
        n > 0,
        id_moment(ids[0]) is Some,
    ensures
        bucket_picks(ids, n, rule).contains(ids[0]),
    decreases ids.len(),
{
    let rest = bucket_picks(ids.drop_last(), n, rule);
    if ids.len() == 1 {
        assert(ids.drop_last().len() == 0);
        assert(rest.len() == 0);
        assert(bucket_picks(ids, n, rule)[0] == ids[0]);
    } else {
        lemma_first_picked(ids.drop_last(), n, rule);
        let k = choose|k: int| 0 <= k < rest.len() && rest[k] == ids[0];
        assert(bucket_picks(ids, n, rule)[k] == ids[0]);
    }
}

/// A policy with any tier enabled keeps the newest snapshot, if its ID denotes
/// a time.
pub proof fn law_newest_is_kept(v: Seq<InfoView>, retain: RetainConfig)
    requires
        v.len() > 0,
        !retain.disabled(),
        id_moment(newest_first(info_ids(v))[0]) is Some,
    ensures
        is_kept(v, retain, newest_first(info_ids(v))[0]),
{
    let s = newest_first(info_ids(v));
    law_newest_first_sorts(info_ids(v));
    lemma_reasons(v, retain, s[0]);
    if retain.last > 0 {
        law_last_are_kept(v, retain, 0);
    } else if retain.hourly > 0 {
        lemma_first_picked(s, retain.hourly as int, KeepReason::Hourly);
        assert(picks(s, retain, KeepReason::Hourly).contains(s[0]));
    } else if retain.daily > 0 {
        lemma_first_picked(s, retain.daily as int, KeepReason::Daily);
        assert(picks(s, retain, KeepReason::Daily).contains(s[0]));
    } else if retain.weekly > 0 {
        lemma_first_picked(s, retain.weekly as int, KeepReason::Weekly);
        assert(picks(s, retain, KeepReason::Weekly).contains(s[0]));
    } else if retain.monthly > 0 {
        lemma_first_picked(s, retain.monthly as int, KeepReason::Monthly);
        assert(picks(s, retain, KeepReason::Monthly).contains(s[0]));
    } else {
        lemma_first_picked(s, retain.yearly as int, KeepReason::Yearly);
        assert(picks(s, retain, KeepReason::Yearly).contains(s[0]));
    }
}

/// A bucket rule picks at most as many snapshots as its tier says, one per
/// period; and while the tier is not used up, every period that has a
/// snapshot with a time has one picked.
pub proof fn law_bucket_rule(ids: Seq<Seq<char>>, n: int, rule: KeepReason)
    requires
        n >= 0,
    ensures
        bucket_picks(ids, n, rule).len() <= n,
        buckets_of(rule, bucket_picks(ids, n, rule)).no_duplicates(),
        bucket_picks(ids, n, rule).len() < n ==> forall|i: int|
            0 <= i < ids.len() && id_moment(#[trigger] ids[i]) is Some ==> buckets_of(
                rule,
                bucket_picks(ids, n, rule),
            ).contains(id_bucket(rule, ids[i])),
    decreases ids.len(),
{
    if ids.len() > 0 {
        law_bucket_rule(ids.drop_last(), n, rule);
        let rest = bucket_picks(ids.drop_last(), n, rule);
        let all = bucket_picks(ids, n, rule);
        let x = ids.last();
        let b = id_bucket(rule, x);
        if all != rest {
            assert(buckets_of(rule, all) =~= buckets_of(rule, rest).push(b));
        }
        if all.len() < n {
            assert forall|i: int| 0 <= i < ids.len() && id_moment(#[trigger] ids[i]) is Some
                implies buckets_of(rule, all).contains(id_bucket(rule, ids[i])) by {
                if i < ids.len() - 1 {
                    assert(ids.drop_last()[i] == ids[i]);
                    let k = choose|k: int|
                        0 <= k < buckets_of(rule, rest).len() && buckets_of(rule, rest)[k]
                            == id_bucket(rule, ids[i]);
                    assert(buckets_of(rule, all)[k] == id_bucket(rule, ids[i]));
                } else if all != rest {
                    assert(buckets_of(rule, all)[rest.len() as int] == b);
                }
            }
        }
    }
}

/// The snapshot that a bucket rule picks for a period is the first of that
/// period in the list, which for a newest-first list is the newest.
pub proof fn law_bucket_picks_newest(
    ids: Seq<Seq<char>>,
    n: int,
    rule: KeepReason,
    id: Seq<char>,
) -> (i: int)
    requires
        bucket_picks(ids, n, rule).contains(id),
    ensures
        0 <= i < ids.len(),
        ids[i] == id,
        forall|j: int|
            0 <= j < i && id_moment(#[trigger] ids[j]) is Some ==> id_bucket(rule, ids[j])
                != id_bucket(rule, id),
    decreases ids.len(),
{
    let p = bucket_picks(ids, n, rule);
    let rest = bucket_picks(ids.drop_last(), n, rule);
    let k = choose|k: int| 0 <= k < p.len() && p[k] == id;
    if k < rest.len() {
        assert(rest[k] == id);
        let i = law_bucket_picks_newest(ids.drop_last(), n, rule, id);
        assert forall|j: int| 0 <= j < i && id_moment(#[trigger] ids[j]) is Some implies id_bucket(
            rule,
            ids[j],
        ) != id_bucket(rule, id) by {
            assert(ids.drop_last()[j] == ids[j]);
        }
        i
    } else {
        let i = ids.len() - 1;
        law_bucket_rule(ids.drop_last(), n, rule);
        assert forall|j: int| 0 <= j < i && id_moment(#[trigger] ids[j]) is Some implies id_bucket(
            rule,
            ids[j],
        ) != id_bucket(rule, id) by {
            assert(ids.drop_last()[j] == ids[j]);
        }
        i
    }
}

} // verus!
