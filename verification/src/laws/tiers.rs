//! What the tiers of a retention policy keep, said of the times of snapshots.

use vstd::prelude::*;

use crate::clock::{
    calendar_of, lemma_calendar_exists, lemma_calendar_weeks, lemma_date_unique,
};
use crate::config::RetainConfig;
use crate::retention::{
    bucket_of, bucket_picks, buckets_of, id_bucket, info_ids, is_kept, keep_reasons,
    law_bucket_rule, law_newest_first_sorts, law_only_given_are_kept, lemma_bucket_picks_given,
    lemma_protected_given, lemma_protected_ids, lemma_reason_rules, lemma_sorted_member,
    newest_first, picks, protected_ids, KeepReason,
};
use crate::snapshot::id::id_moment;
use crate::snapshot::info::InfoView;
use crate::text::{lemma_text_less_irreflexive, lemma_text_less_total, text_less};

verus! {

/// The second that an ID denotes.
spec fn secs_of(id: Seq<char>) -> int {
    id_moment(id)->0.secs as int
}

/// Whether the times of some snapshots lie in the calendar's range.
pub open spec fn timely(v: Seq<InfoView>) -> bool {
    forall|i: int|
        0 <= i < v.len() ==> (id_moment((#[trigger] v[i]).id) matches Some(m) ==> m.wf())
}

/// Whether two IDs with times are in one period under a rule exactly if `key`
/// says the same of both.
spec fn keyed<K>(ids: Seq<Seq<char>>, rule: KeepReason, key: spec_fn(Seq<char>) -> K) -> bool {
    forall|i: int, j: int|
        0 <= i < ids.len() && 0 <= j < ids.len() && id_moment(#[trigger] ids[i]) is Some
            && id_moment(#[trigger] ids[j]) is Some ==> (id_bucket(rule, ids[i]) == id_bucket(
            rule,
            ids[j],
        ) <==> key(ids[i]) == key(ids[j]))
}

/// The keys of the IDs with times in a list.
spec fn keys_in<K>(ids: Seq<Seq<char>>, key: spec_fn(Seq<char>) -> K) -> Set<K> {
    Set::new(
        |h: K|
            exists|j: int|
                0 <= j < ids.len() && id_moment(#[trigger] ids[j]) is Some && h == key(ids[j]),
    )
}

proof fn lemma_keys_finite<K>(ids: Seq<Seq<char>>, key: spec_fn(Seq<char>) -> K)
    ensures
        keys_in(ids, key).finite(),
{
    let all = ids.map_values(key);
    vstd::seq_lib::seq_to_set_is_finite(all);
    assert forall|h: K| #[trigger] keys_in(ids, key).contains(h) implies all.to_set().contains(
        h,
    ) by {
        let j = choose|j: int|
            0 <= j < ids.len() && id_moment(#[trigger] ids[j]) is Some && h == key(ids[j]);
        assert(all[j] == h);
    }
    vstd::set_lib::lemma_set_subset_finite(all.to_set(), keys_in(ids, key));
}

proof fn lemma_picks_grow(ids: Seq<Seq<char>>, n: int, rule: KeepReason, k: int)
    requires
        0 <= k <= ids.len(),
    ensures
        bucket_picks(ids.take(k), n, rule).len() <= bucket_picks(ids, n, rule).len(),
        bucket_picks(ids, n, rule).take(bucket_picks(ids.take(k), n, rule).len() as int)
            == bucket_picks(ids.take(k), n, rule),
    decreases ids.len(),
{
    let p = bucket_picks(ids, n, rule);
    if k == ids.len() {
        assert(ids.take(k) =~= ids);
        assert(p.take(p.len() as int) =~= p);
    } else {
        lemma_picks_grow(ids.drop_last(), n, rule, k);
        assert(ids.drop_last().take(k) =~= ids.take(k));
        let rest = bucket_picks(ids.drop_last(), n, rule);
        let q = bucket_picks(ids.take(k), n, rule);
        assert(p.take(q.len() as int) =~= rest.take(q.len() as int));
    }
}

/// An ID is picked exactly if it is when its first occurrence is looked at.
proof fn lemma_picked_at(ids: Seq<Seq<char>>, n: int, rule: KeepReason, k: int)
    requires
        0 <= k < ids.len(),
        forall|j: int| 0 <= j < k ==> ids[j] != ids[k],
    ensures
        bucket_picks(ids, n, rule).contains(ids[k]) <==> {
            let first = bucket_picks(ids.take(k), n, rule);
            &&& first.len() < n
            &&& id_moment(ids[k]) is Some
            &&& !buckets_of(rule, first).contains(id_bucket(rule, ids[k]))
        },
    decreases ids.len(),
{
    let x = ids[k];
    let init = ids.drop_last();
    let rest = bucket_picks(init, n, rule);
    let p = bucket_picks(ids, n, rule);
    let first = bucket_picks(ids.take(k), n, rule);
    if k == ids.len() - 1 {
        assert(init =~= ids.take(k));
        if rest.contains(x) {
            lemma_bucket_picks_given(init, n, rule, x);
            let j = choose|j: int| 0 <= j < init.len() && init[j] == x;
            assert(ids[j] == x);
        }
        if p.len() > rest.len() {
            assert(p[rest.len() as int] == x);
        }
    } else {
        assert(init[k] == x);
        assert(init.take(k) =~= ids.take(k));
        lemma_picked_at(init, n, rule, k);
        lemma_picks_grow(init, n, rule, k);
        if rest.contains(x) {
            let j = choose|j: int| 0 <= j < rest.len() && rest[j] == x;
            assert(p[j] == x);
        } else if p.contains(x) {
            let j = choose|j: int| 0 <= j < p.len() && p[j] == x;
            assert(j >= rest.len()) by {
                if j < rest.len() {
                    assert(rest[j] == x);
                }
            }
            assert(ids.last() == x);
            if buckets_of(rule, first).contains(id_bucket(rule, x)) {
                let m = choose|m: int|
                    0 <= m < first.len() && buckets_of(rule, first)[m] == id_bucket(rule, x);
                assert(rest.take(first.len() as int)[m] == first[m]);
                assert(buckets_of(rule, rest)[m] == id_bucket(rule, x));
            }
        }
    }
}

/// What a bucket rule picks, said of keys: the first of each key, while fewer
/// than `n` other keys came before.
proof fn lemma_picked_by_key<K>(
    ids: Seq<Seq<char>>,
    n: int,
    rule: KeepReason,
    key: spec_fn(Seq<char>) -> K,
    k: int,
)
    requires
        n >= 0,
        keyed(ids, rule, key),
        0 <= k < ids.len(),
        forall|j: int| 0 <= j < k ==> ids[j] != ids[k],
    ensures
        bucket_picks(ids, n, rule).contains(ids[k]) <==> {
            &&& id_moment(ids[k]) is Some
            &&& !keys_in(ids.take(k), key).contains(key(ids[k]))
            &&& keys_in(ids.take(k), key).len() < n
        },
{
    let before = ids.take(k);
    let first = bucket_picks(before, n, rule);
    let keys = first.map_values(key);
    let all = keys_in(before, key);
    lemma_picked_at(ids, n, rule, k);
    law_bucket_rule(before, n, rule);
    lemma_keys_finite(before, key);
    assert forall|m: int| 0 <= m < first.len() implies before.contains(#[trigger] first[m])
        && id_moment(first[m]) is Some by {
        lemma_bucket_picks_given(before, n, rule, first[m]);
    }
    assert(keys.no_duplicates()) by {
        assert forall|a: int, b: int|
            0 <= a < keys.len() && 0 <= b < keys.len() && a != b implies keys[a] != keys[b] by {
            let i = choose|i: int| 0 <= i < before.len() && before[i] == first[a];
            let j = choose|j: int| 0 <= j < before.len() && before[j] == first[b];
            assert(ids[i] == first[a] && ids[j] == first[b]);
            assert(buckets_of(rule, first)[a] != buckets_of(rule, first)[b]);
        }
    }
    keys.unique_seq_to_set();
    assert(keys.to_set().subset_of(all)) by {
        assert forall|h: K| #[trigger] keys.to_set().contains(h) implies all.contains(h) by {
            let m = choose|m: int| 0 <= m < keys.len() && keys[m] == h;
            let j = choose|j: int| 0 <= j < before.len() && before[j] == first[m];
            assert(id_moment(before[j]) is Some);
        }
    }
    vstd::set_lib::lemma_len_subset(keys.to_set(), all);
    if first.len() < n {
        assert(all =~= keys.to_set()) by {
            assert forall|h: K| #[trigger] all.contains(h) implies keys.to_set().contains(h) by {
                let j = choose|j: int|
                    0 <= j < before.len() && id_moment(#[trigger] before[j]) is Some && h == key(
                        before[j],
                    );
                let m = choose|m: int|
                    0 <= m < first.len() && buckets_of(rule, first)[m] == id_bucket(
                        rule,
                        before[j],
                    );
                let i = choose|i: int| 0 <= i < before.len() && before[i] == first[m];
                assert(ids[i] == first[m] && ids[j] == before[j]);
                assert(keys[m] == h);
            }
        }
        if id_moment(ids[k]) is Some {
            if buckets_of(rule, first).contains(id_bucket(rule, ids[k])) {
                let m = choose|m: int|
                    0 <= m < first.len() && buckets_of(rule, first)[m] == id_bucket(rule, ids[k]);
                let i = choose|i: int| 0 <= i < before.len() && before[i] == first[m];
                assert(ids[i] == first[m]);
                assert(keys[m] == key(ids[k]));
            }
            if all.contains(key(ids[k])) {
                let m = choose|m: int| 0 <= m < keys.len() && keys[m] == key(ids[k]);
                let i = choose|i: int| 0 <= i < before.len() && before[i] == first[m];
                assert(ids[i] == first[m]);
                assert(buckets_of(rule, first)[m] == id_bucket(rule, ids[k]));
            }
        }
    }
}

/// The keys of the snapshots that are newer than the one with the ID `x`.
spec fn newer_keys<K>(v: Seq<InfoView>, x: Seq<char>, key: spec_fn(Seq<char>) -> K) -> Set<K> {
    Set::new(
        |h: K|
            exists|j: int|
                0 <= j < v.len() && text_less(x, (#[trigger] v[j]).id) && id_moment(v[j].id)
                    is Some && h == key(v[j].id),
    )
}

/// The place of the first occurrence of an ID in the newest-first order, and
/// what comes before it.
proof fn lemma_place(v: Seq<InfoView>, x: Seq<char>) -> (k: int)
    requires
        info_ids(v).contains(x),
    ensures
        0 <= k < newest_first(info_ids(v)).len(),
        newest_first(info_ids(v))[k] == x,
        forall|j: int| 0 <= j < k ==> newest_first(info_ids(v))[j] != x,
        forall|j: int|
            0 <= j < k ==> info_ids(v).contains(#[trigger] newest_first(info_ids(v))[j])
                && text_less(x, newest_first(info_ids(v))[j]),
        forall|j: int|
            0 <= j < v.len() && text_less(x, (#[trigger] v[j]).id) ==> newest_first(
                info_ids(v),
            ).take(k).contains(v[j].id),
{
    let ids = info_ids(v);
    let s = newest_first(ids);
    law_newest_first_sorts(ids);
    lemma_sorted_member(ids, x);
    let m = choose|m: int| 0 <= m < s.len() && s[m] == x;
    let k = lemma_first(s, x, m);
    assert forall|j: int| 0 <= j < k implies ids.contains(#[trigger] s[j]) && text_less(
        x,
        s[j],
    ) by {
        lemma_sorted_member(ids, s[j]);
        assert(!text_less(s[j], s[k]));
        lemma_text_less_total(s[j], x);
    }
    assert forall|j: int| 0 <= j < v.len() && text_less(x, (#[trigger] v[j]).id) implies s.take(
        k,
    ).contains(v[j].id) by {
        assert(ids[j] == v[j].id);
        lemma_sorted_member(ids, v[j].id);
        let q = choose|q: int| 0 <= q < s.len() && s[q] == v[j].id;
        lemma_text_less_irreflexive(x);
        if q > k {
            assert(!text_less(s[k], s[q]));
        }
        assert(s.take(k)[q] == v[j].id);
    }
    k
}

proof fn lemma_first(s: Seq<Seq<char>>, x: Seq<char>, m: int) -> (k: int)
    requires
        0 <= m < s.len(),
        s[m] == x,
    ensures
        0 <= k <= m,
        s[k] == x,
        forall|j: int| 0 <= j < k ==> s[j] != x,
    decreases m,
{
    if exists|j: int| 0 <= j < m && s[j] == x {
        let j = choose|j: int| 0 <= j < m && s[j] == x;
        lemma_first(s, x, j)
    } else {
        m
    }
}

/// A bucket rule gives a snapshot as a reason exactly if it is the newest of
/// its key and fewer than `n` keys are newer.
proof fn lemma_tier<K>(
    v: Seq<InfoView>,
    retain: RetainConfig,
    n: int,
    rule: KeepReason,
    key: spec_fn(Seq<char>) -> K,
    x: Seq<char>,
)
    requires
        n >= 0,
        info_ids(v).contains(x),
        keyed(newest_first(info_ids(v)), rule, key),
        picks(newest_first(info_ids(v)), retain, rule) == bucket_picks(
            newest_first(info_ids(v)),
            n,
            rule,
        ),
        rule != KeepReason::Protected,
    ensures
        keep_reasons(v, retain, x).contains(rule) <==> {
            &&& id_moment(x) is Some
            &&& !newer_keys(v, x, key).contains(key(x))
            &&& newer_keys(v, x, key).len() < n
        },
{
    let s = newest_first(info_ids(v));
    let k = lemma_place(v, x);
    lemma_picked_by_key(s, n, rule, key, k);
    lemma_reason_rules(v, retain, x, rule);
    let before = s.take(k);
    assert(keys_in(before, key) =~= newer_keys(v, x, key)) by {
        assert forall|h: K| #[trigger] keys_in(before, key).contains(h) implies newer_keys(
            v,
            x,
            key,
        ).contains(h) by {
            let j = choose|j: int|
                0 <= j < before.len() && id_moment(#[trigger] before[j]) is Some && h == key(
                    before[j],
                );
            assert(before[j] == s[j]);
            let i = choose|i: int| 0 <= i < info_ids(v).len() && info_ids(v)[i] == s[j];
            assert(v[i].id == s[j]);
        }
        assert forall|h: K| #[trigger] newer_keys(v, x, key).contains(h) implies keys_in(
            before,
            key,
        ).contains(h) by {
            let j = choose|j: int|
                0 <= j < v.len() && text_less(x, (#[trigger] v[j]).id) && id_moment(v[j].id)
                    is Some && h == key(v[j].id);
            let i = choose|i: int| 0 <= i < before.len() && before[i] == v[j].id;
            assert(id_moment(before[i]) is Some);
        }
    }
}

/// Two times are in one period under a rule exactly if: they are in the same
/// clock hour, on the same day, in the same week from Monday on, in the same
/// month of a year, in the same year.
pub proof fn law_periods(s: int, t: int)
    requires
        crate::clock::MIN_SECS <= s <= crate::clock::MAX_SECS,
        crate::clock::MIN_SECS <= t <= crate::clock::MAX_SECS,
    ensures
        bucket_of(KeepReason::Hourly, calendar_of(s)) == bucket_of(
            KeepReason::Hourly,
            calendar_of(t),
        ) <==> s / 3_600 == t / 3_600,
        bucket_of(KeepReason::Daily, calendar_of(s)) == bucket_of(
            KeepReason::Daily,
            calendar_of(t),
        ) <==> s / 86_400 == t / 86_400,
        bucket_of(KeepReason::Weekly, calendar_of(s)) == bucket_of(
            KeepReason::Weekly,
            calendar_of(t),
        ) <==> (s / 86_400 + 3) / 7 == (t / 86_400 + 3) / 7,
        bucket_of(KeepReason::Monthly, calendar_of(s)) == bucket_of(
            KeepReason::Monthly,
            calendar_of(t),
        ) <==> calendar_of(s).year == calendar_of(t).year && calendar_of(s).month == calendar_of(
            t,
        ).month,
        bucket_of(KeepReason::Yearly, calendar_of(s)) == bucket_of(
            KeepReason::Yearly,
            calendar_of(t),
        ) <==> calendar_of(s).year == calendar_of(t).year,
{
    lemma_calendar_exists(s);
    lemma_calendar_exists(t);
    let (c, d) = (calendar_of(s), calendar_of(t));
    assert(s / 3_600 == s / 86_400 * 24 + s % 86_400 / 3_600);
    assert(t / 3_600 == t / 86_400 * 24 + t % 86_400 / 3_600);
    if s / 86_400 == t / 86_400 {
        lemma_date_unique(
            c.year as int,
            c.month as int,
            c.day as int,
            d.year as int,
            d.month as int,
            d.day as int,
        );
    }
    lemma_calendar_weeks(s, t, c, d);
}

proof fn lemma_keyed<K>(v: Seq<InfoView>, rule: KeepReason, key: spec_fn(Seq<char>) -> K)
    requires
        forall|i: int, j: int|
            0 <= i < v.len() && 0 <= j < v.len() && id_moment((#[trigger] v[i]).id) is Some
                && id_moment((#[trigger] v[j]).id) is Some ==> (id_bucket(rule, v[i].id)
                == id_bucket(rule, v[j].id) <==> key(v[i].id) == key(v[j].id)),
    ensures
        keyed(newest_first(info_ids(v)), rule, key),
{
    let s = newest_first(info_ids(v));
    assert forall|i: int, j: int|
        0 <= i < s.len() && 0 <= j < s.len() && id_moment(#[trigger] s[i]) is Some && id_moment(
            #[trigger] s[j],
        ) is Some implies (id_bucket(rule, s[i]) == id_bucket(rule, s[j]) <==> key(s[i]) == key(
        s[j],
    )) by {
        lemma_sorted_member(info_ids(v), s[i]);
        lemma_sorted_member(info_ids(v), s[j]);
        let a = choose|a: int| 0 <= a < info_ids(v).len() && info_ids(v)[a] == s[i];
        let b = choose|b: int| 0 <= b < info_ids(v).len() && info_ids(v)[b] == s[j];
        assert(v[a].id == s[i] && v[b].id == s[j]);
    }
}

/// The hourly tier keeps the newest snapshot of a clock hour, for as many of them as
/// the policy says, counted from the newest: a snapshot has it as a reason
/// exactly if it has a time, no newer one is of the same clock hour, and the newer
/// ones are of fewer than that many.
pub proof fn law_hourly_tier(v: Seq<InfoView>, retain: RetainConfig, i: int)
    requires
        timely(v),
        0 <= i < v.len(),
    ensures
        keep_reasons(v, retain, v[i].id).contains(KeepReason::Hourly) <==> {
            &&& id_moment(v[i].id) is Some
            &&& forall|j: int|
                0 <= j < v.len() && text_less(v[i].id, (#[trigger] v[j]).id) && id_moment(v[j].id)
                    is Some ==> id_moment(v[j].id)->0.secs as int / 3_600
                        != id_moment(v[i].id)->0.secs as int / 3_600
            &&& Set::new(
                |h: int|
                    exists|j: int|
                        0 <= j < v.len() && text_less(v[i].id, (#[trigger] v[j]).id) && id_moment(
                            v[j].id,
                        ) is Some && h == id_moment(v[j].id)->0.secs as int / 3_600,
            ).len() < retain.hourly
        },
{
    let key = |x: Seq<char>| -> int { id_moment(x)->0.secs as int / 3_600 };
    let x = v[i].id;
    assert(info_ids(v)[i] == x);
    assert forall|a: int, b: int|
        0 <= a < v.len() && 0 <= b < v.len() && id_moment((#[trigger] v[a]).id) is Some
            && id_moment((#[trigger] v[b]).id) is Some implies
            (id_bucket(KeepReason::Hourly, v[a].id)
        == id_bucket(KeepReason::Hourly, v[b].id) <==> key(v[a].id) == key(v[b].id)) by {
        law_periods(secs_of(v[a].id), secs_of(v[b].id));
    }
    lemma_keyed(v, KeepReason::Hourly, key);
    lemma_tier(v, retain, retain.hourly as int, KeepReason::Hourly, key, x);
    let newer = newer_keys(v, x, key);
    assert(newer =~= Set::new(
        |h: int|
            exists|j: int|
                0 <= j < v.len() && text_less(v[i].id, (#[trigger] v[j]).id) && id_moment(v[j].id)
                    is Some && h == id_moment(v[j].id)->0.secs as int / 3_600,
    ));
    if newer.contains(key(x)) {
        let j = choose|j: int|
            0 <= j < v.len() && text_less(x, (#[trigger] v[j]).id) && id_moment(v[j].id) is Some
                && key(x) == key(v[j].id);
        assert(key(v[j].id) == key(v[i].id));
    }
    assert forall|j: int|
        0 <= j < v.len() && text_less(x, (#[trigger] v[j]).id) && id_moment(v[j].id) is Some
            && key(v[j].id) == key(x) implies newer.contains(key(x)) by {}
}

/// The daily tier keeps the newest snapshot of a day, for as many of them as
/// the policy says, counted from the newest: a snapshot has it as a reason
/// exactly if it has a time, no newer one is of the same day, and the newer
/// ones are of fewer than that many.
pub proof fn law_daily_tier(v: Seq<InfoView>, retain: RetainConfig, i: int)
    requires
        timely(v),
        0 <= i < v.len(),
    ensures
        keep_reasons(v, retain, v[i].id).contains(KeepReason::Daily) <==> {
            &&& id_moment(v[i].id) is Some
            &&& forall|j: int|
                0 <= j < v.len() && text_less(v[i].id, (#[trigger] v[j]).id) && id_moment(v[j].id)
                    is Some ==> id_moment(v[j].id)->0.secs as int / 86_400
                        != id_moment(v[i].id)->0.secs as int / 86_400
            &&& Set::new(
                |h: int|
                    exists|j: int|
                        0 <= j < v.len() && text_less(v[i].id, (#[trigger] v[j]).id) && id_moment(
                            v[j].id,
                        ) is Some && h == id_moment(v[j].id)->0.secs as int / 86_400,
            ).len() < retain.daily
        },
{
    let key = |x: Seq<char>| -> int { id_moment(x)->0.secs as int / 86_400 };
    let x = v[i].id;
    assert(info_ids(v)[i] == x);
    assert forall|a: int, b: int|
        0 <= a < v.len() && 0 <= b < v.len() && id_moment((#[trigger] v[a]).id) is Some
            && id_moment((#[trigger] v[b]).id) is Some implies
            (id_bucket(KeepReason::Daily, v[a].id)
        == id_bucket(KeepReason::Daily, v[b].id) <==> key(v[a].id) == key(v[b].id)) by {
        law_periods(secs_of(v[a].id), secs_of(v[b].id));
    }
    lemma_keyed(v, KeepReason::Daily, key);
    lemma_tier(v, retain, retain.daily as int, KeepReason::Daily, key, x);
    let newer = newer_keys(v, x, key);
    assert(newer =~= Set::new(
        |h: int|
            exists|j: int|
                0 <= j < v.len() && text_less(v[i].id, (#[trigger] v[j]).id) && id_moment(v[j].id)
                    is Some && h == id_moment(v[j].id)->0.secs as int / 86_400,
    ));
    if newer.contains(key(x)) {
        let j = choose|j: int|
            0 <= j < v.len() && text_less(x, (#[trigger] v[j]).id) && id_moment(v[j].id) is Some
                && key(x) == key(v[j].id);
        assert(key(v[j].id) == key(v[i].id));
    }
    assert forall|j: int|
        0 <= j < v.len() && text_less(x, (#[trigger] v[j]).id) && id_moment(v[j].id) is Some
            && key(v[j].id) == key(x) implies newer.contains(key(x)) by {}
}

/// The weekly tier keeps the newest snapshot of a week from Monday on, for as many of them as
/// the policy says, counted from the newest: a snapshot has it as a reason
/// exactly if it has a time, no newer one is of the same week from Monday on, and the newer
/// ones are of fewer than that many.
pub proof fn law_weekly_tier(v: Seq<InfoView>, retain: RetainConfig, i: int)
    requires
        timely(v),
        0 <= i < v.len(),
    ensures
        keep_reasons(v, retain, v[i].id).contains(KeepReason::Weekly) <==> {
            &&& id_moment(v[i].id) is Some
            &&& forall|j: int|
                0 <= j < v.len() && text_less(v[i].id, (#[trigger] v[j]).id) && id_moment(v[j].id)
                    is Some ==> (id_moment(v[j].id)->0.secs as int / 86_400 + 3) / 7
                        != (id_moment(v[i].id)->0.secs as int / 86_400 + 3) / 7
            &&& Set::new(
                |h: int|
                    exists|j: int|
                        0 <= j < v.len() && text_less(v[i].id, (#[trigger] v[j]).id) && id_moment(
                            v[j].id,
                        ) is Some && h == (id_moment(v[j].id)->0.secs as int / 86_400 + 3) / 7,
            ).len() < retain.weekly
        },
{
    let key = |x: Seq<char>| -> int { (id_moment(x)->0.secs as int / 86_400 + 3) / 7 };
    let x = v[i].id;
    assert(info_ids(v)[i] == x);
    assert forall|a: int, b: int|
        0 <= a < v.len() && 0 <= b < v.len() && id_moment((#[trigger] v[a]).id) is Some
            && id_moment((#[trigger] v[b]).id) is Some implies
            (id_bucket(KeepReason::Weekly, v[a].id)
        == id_bucket(KeepReason::Weekly, v[b].id) <==> key(v[a].id) == key(v[b].id)) by {
        law_periods(secs_of(v[a].id), secs_of(v[b].id));
    }
    lemma_keyed(v, KeepReason::Weekly, key);
    lemma_tier(v, retain, retain.weekly as int, KeepReason::Weekly, key, x);
    let newer = newer_keys(v, x, key);
    assert(newer =~= Set::new(
        |h: int|
            exists|j: int|
                0 <= j < v.len() && text_less(v[i].id, (#[trigger] v[j]).id) && id_moment(v[j].id)
                    is Some && h == (id_moment(v[j].id)->0.secs as int / 86_400 + 3) / 7,
    ));
    if newer.contains(key(x)) {
        let j = choose|j: int|
            0 <= j < v.len() && text_less(x, (#[trigger] v[j]).id) && id_moment(v[j].id) is Some
                && key(x) == key(v[j].id);
        assert(key(v[j].id) == key(v[i].id));
    }
    assert forall|j: int|
        0 <= j < v.len() && text_less(x, (#[trigger] v[j]).id) && id_moment(v[j].id) is Some
            && key(v[j].id) == key(x) implies newer.contains(key(x)) by {}
}

/// The monthly tier keeps the newest snapshot of a month, for as many of them as
/// the policy says, counted from the newest: a snapshot has it as a reason
/// exactly if it has a time, no newer one is of the same month, and the newer
/// ones are of fewer than that many.
pub proof fn law_monthly_tier(v: Seq<InfoView>, retain: RetainConfig, i: int)
    requires
        timely(v),
        0 <= i < v.len(),
    ensures
        keep_reasons(v, retain, v[i].id).contains(KeepReason::Monthly) <==> {
            &&& id_moment(v[i].id) is Some
            &&& forall|j: int|
                0 <= j < v.len() && text_less(v[i].id, (#[trigger] v[j]).id) && id_moment(v[j].id)
                    is Some ==> (
                            calendar_of(id_moment(v[j].id)->0.secs as int).year as int,
                            calendar_of(id_moment(v[j].id)->0.secs as int).month as int,
                        ) != (
                            calendar_of(id_moment(v[i].id)->0.secs as int).year as int,
                            calendar_of(id_moment(v[i].id)->0.secs as int).month as int,
                        )
            &&& Set::new(
                |h: (int, int)|
                    exists|j: int|
                        0 <= j < v.len() && text_less(v[i].id, (#[trigger] v[j]).id) && id_moment(
                            v[j].id,
                        ) is Some && h == (
                            calendar_of(id_moment(v[j].id)->0.secs as int).year as int,
                            calendar_of(id_moment(v[j].id)->0.secs as int).month as int,
                        ),
            ).len() < retain.monthly
        },
{
    let key = |x: Seq<char>| -> (int, int) { (
                            calendar_of(id_moment(x)->0.secs as int).year as int,
                            calendar_of(id_moment(x)->0.secs as int).month as int,
                        ) };
    let x = v[i].id;
    assert(info_ids(v)[i] == x);
    assert forall|a: int, b: int|
        0 <= a < v.len() && 0 <= b < v.len() && id_moment((#[trigger] v[a]).id) is Some
            && id_moment((#[trigger] v[b]).id) is Some implies
            (id_bucket(KeepReason::Monthly, v[a].id)
        == id_bucket(KeepReason::Monthly, v[b].id) <==> key(v[a].id) == key(v[b].id)) by {
        law_periods(secs_of(v[a].id), secs_of(v[b].id));
    }
    lemma_keyed(v, KeepReason::Monthly, key);
    lemma_tier(v, retain, retain.monthly as int, KeepReason::Monthly, key, x);
    let newer = newer_keys(v, x, key);
    assert(newer =~= Set::new(
        |h: (int, int)|
            exists|j: int|
                0 <= j < v.len() && text_less(v[i].id, (#[trigger] v[j]).id) && id_moment(v[j].id)
                    is Some && h == (
                            calendar_of(id_moment(v[j].id)->0.secs as int).year as int,
                            calendar_of(id_moment(v[j].id)->0.secs as int).month as int,
                        ),
    ));
    if newer.contains(key(x)) {
        let j = choose|j: int|
            0 <= j < v.len() && text_less(x, (#[trigger] v[j]).id) && id_moment(v[j].id) is Some
                && key(x) == key(v[j].id);
        assert(key(v[j].id) == key(v[i].id));
    }
    assert forall|j: int|
        0 <= j < v.len() && text_less(x, (#[trigger] v[j]).id) && id_moment(v[j].id) is Some
            && key(v[j].id) == key(x) implies newer.contains(key(x)) by {}
}

/// The yearly tier keeps the newest snapshot of a year, for as many of them as
/// the policy says, counted from the newest: a snapshot has it as a reason
/// exactly if it has a time, no newer one is of the same year, and the newer
/// ones are of fewer than that many.
pub proof fn law_yearly_tier(v: Seq<InfoView>, retain: RetainConfig, i: int)
    requires
        timely(v),
        0 <= i < v.len(),
    ensures
        keep_reasons(v, retain, v[i].id).contains(KeepReason::Yearly) <==> {
            &&& id_moment(v[i].id) is Some
            &&& forall|j: int|
                0 <= j < v.len() && text_less(v[i].id, (#[trigger] v[j]).id) && id_moment(v[j].id)
                    is Some ==> calendar_of(id_moment(v[j].id)->0.secs as int).year as int
                        != calendar_of(id_moment(v[i].id)->0.secs as int).year as int
            &&& Set::new(
                |h: int|
                    exists|j: int|
                        0 <= j < v.len() && text_less(v[i].id, (#[trigger] v[j]).id) && id_moment(
                            v[j].id,
                        ) is Some
                            && h == calendar_of(id_moment(v[j].id)->0.secs as int).year as int,
            ).len() < retain.yearly
        },
{
    let key = |x: Seq<char>| -> int { calendar_of(id_moment(x)->0.secs as int).year as int };
    let x = v[i].id;
    assert(info_ids(v)[i] == x);
    assert forall|a: int, b: int|
        0 <= a < v.len() && 0 <= b < v.len() && id_moment((#[trigger] v[a]).id) is Some
            && id_moment((#[trigger] v[b]).id) is Some implies
            (id_bucket(KeepReason::Yearly, v[a].id)
        == id_bucket(KeepReason::Yearly, v[b].id) <==> key(v[a].id) == key(v[b].id)) by {
        law_periods(secs_of(v[a].id), secs_of(v[b].id));
    }
    lemma_keyed(v, KeepReason::Yearly, key);
    lemma_tier(v, retain, retain.yearly as int, KeepReason::Yearly, key, x);
    let newer = newer_keys(v, x, key);
    assert(newer =~= Set::new(
        |h: int|
            exists|j: int|
                0 <= j < v.len() && text_less(v[i].id, (#[trigger] v[j]).id) && id_moment(v[j].id)
                    is Some && h == calendar_of(id_moment(v[j].id)->0.secs as int).year as int,
    ));
    if newer.contains(key(x)) {
        let j = choose|j: int|
            0 <= j < v.len() && text_less(x, (#[trigger] v[j]).id) && id_moment(v[j].id) is Some
                && key(x) == key(v[j].id);
        assert(key(v[j].id) == key(v[i].id));
    }
    assert forall|j: int|
        0 <= j < v.len() && text_less(x, (#[trigger] v[j]).id) && id_moment(v[j].id) is Some
            && key(v[j].id) == key(x) implies newer.contains(key(x)) by {}
}

/// The `last` tier keeps as many of the newest snapshots as the policy says: a
/// snapshot has it as a reason exactly if fewer than that many are newer.
pub proof fn law_last_tier(v: Seq<InfoView>, retain: RetainConfig, i: int)
    requires
        info_ids(v).no_duplicates(),
        0 <= i < v.len(),
    ensures
        keep_reasons(v, retain, v[i].id).contains(KeepReason::Last) <==> Set::new(
            |j: int| 0 <= j < v.len() && text_less(v[i].id, v[j].id),
        ).len() < retain.last,
{
    let ids = info_ids(v);
    let s = newest_first(ids);
    let x = v[i].id;
    assert(ids[i] == x);
    law_newest_first_sorts(ids);
    let k = lemma_place(v, x);
    lemma_reason_rules(v, retain, x, KeepReason::Last);
    lemma_distinct_sorted(ids);
    let newer = Set::new(|j: int| 0 <= j < v.len() && text_less(v[i].id, v[j].id));
    let before = s.take(k);
    before.unique_seq_to_set();
    assert(newer.finite()) by {
        vstd::set_lib::lemma_int_range(0, v.len() as int);
        vstd::set_lib::lemma_set_subset_finite(
            vstd::set_lib::set_int_range(0, v.len() as int),
            newer,
        );
    }
    let f = |j: int| ids[j];
    assert(newer.map(f) =~= before.to_set()) by {
        assert forall|y: Seq<char>| #[trigger] newer.map(f).contains(y) implies
            before.to_set().contains(
            y,
        ) by {
            let j = choose|j: int| newer.contains(j) && y == f(j);
            assert(before.contains(v[j].id));
        }
        assert forall|y: Seq<char>| #[trigger] before.to_set().contains(y) implies newer.map(
            f,
        ).contains(y) by {
            let m = choose|m: int| 0 <= m < before.len() && before[m] == y;
            assert(before[m] == s[m]);
            let j = choose|j: int| 0 <= j < ids.len() && ids[j] == s[m];
            assert(newer.contains(j) && f(j) == y);
        }
    }
    assert forall|a: int, b: int| newer.contains(a) && newer.contains(b) && f(a) == f(b) implies a
        == b by {}
    vstd::set_lib::lemma_map_size(newer, before.to_set(), f);
    assert(newer.len() == k);
    let p = picks(s, retain, KeepReason::Last);
    if k < retain.last {
        assert(p[k] == x);
    } else if p.contains(x) {
        let m = choose|m: int| 0 <= m < p.len() && p[m] == x;
        assert(s[m] == x);
    }
}

proof fn lemma_distinct_sorted(ids: Seq<Seq<char>>)
    requires
        ids.no_duplicates(),
    ensures
        newest_first(ids).no_duplicates(),
{
    law_newest_first_sorts(ids);
    let s = newest_first(ids);
    ids.lemma_multiset_has_no_duplicates();
    assert(s.no_duplicates()) by {
        s.lemma_multiset_has_no_duplicates_conv();
    }
}

/// A snapshot has its protection as a reason exactly if its record, or that of
/// one with the same ID, says so.
pub proof fn law_protected_tier(v: Seq<InfoView>, retain: RetainConfig, id: Seq<char>)
    ensures
        keep_reasons(v, retain, id).contains(KeepReason::Protected) <==> exists|j: int|
            0 <= j < v.len() && (#[trigger] v[j]).id == id && (v[j].metadata matches Some(m)
                && m.protected),
{
    lemma_reason_rules(v, retain, id, KeepReason::Protected);
    if protected_ids(v).contains(id) {
        let j = lemma_protected_given(v, id);
        assert(v[j].id == id);
    }
    if exists|j: int|
        0 <= j < v.len() && (#[trigger] v[j]).id == id && (v[j].metadata matches Some(m)
            && m.protected) {
        let j = choose|j: int|
            0 <= j < v.len() && (#[trigger] v[j]).id == id && (v[j].metadata matches Some(m)
                && m.protected);
        lemma_protected_ids(v, j);
    }
}

/// A snapshot is kept exactly if there is a reason for it.
pub proof fn law_kept_for_a_reason(v: Seq<InfoView>, retain: RetainConfig, id: Seq<char>)
    ensures
        is_kept(v, retain, id) <==> exists|rule: KeepReason| #[trigger]
            keep_reasons(v, retain, id).contains(rule),
        is_kept(v, retain, id) ==> info_ids(v).contains(id),
{
    let r = keep_reasons(v, retain, id);
    if is_kept(v, retain, id) {
        assert(r.contains(r[0]));
        law_only_given_are_kept(v, retain, id);
    }
    if exists|rule: KeepReason| #[trigger] r.contains(rule) {
        let rule = choose|rule: KeepReason| #[trigger] r.contains(rule);
        let k = choose|k: int| 0 <= k < r.len() && r[k] == rule;
        assert(r.len() > 0);
    }
}

} // verus!
