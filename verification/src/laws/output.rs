//! What the commands show.

use vstd::prelude::*;
use vstd::string::*;

use crate::check::{Finding, Severity};
use crate::cli::args::{message_lines, trigger_of, TriggerKindArg};
use crate::cli::output::{
    all_finding_lines, cleanup_text, created_text, deleted_text, finding_lines, findings_text,
    kept_count, list_row, list_text, meta_text, padded, plan_line, plan_text, purge_names,
    refusal_text, retain_full, retain_line, retain_parts, severity_count, status_text, strain_block,
    strain_blocks, strain_count, strain_line, success_text, sys_lines, truncated,
};
use crate::cleanup::policy::{PlanAction, PlanEntry, PlanTombstone, StrainPlan};
use crate::config::{ConfigView, RetainConfig, StrainView};
use crate::laws::commands::lemma_joined_has;
use crate::laws::health::occurs;
use crate::laws::setup::lemma_occurs;
use crate::lines::trimmed_text;
use crate::metadata::{message_items, MetaView, TriggerKind};
use crate::retention::KeepReason;
use crate::snapshot::info::InfoView;
use crate::text::{dec, joined};

verus! {

/// A text that fits is shown whole; of another the beginning is, with an
/// ellipsis, and never more than fits.
pub proof fn law_truncation(s: Seq<char>, max: int)
    requires
        max > 0,
    ensures
        s.len() <= max ==> truncated(s, max) == s,
        s.len() > max ==> truncated(s, max).len() == max && truncated(s, max).last() == '…'
            && truncated(s, max).drop_last() == s.take(max - 1),
{
    if s.len() > max {
        assert(truncated(s, max).drop_last() =~= s.take(max - 1));
    }
}

/// A list shows a row for each snapshot, in order, with its ID and its strain;
/// the row begins with a star exactly if the live system came from it. Without
/// snapshots it says so.
pub proof fn law_list_rows(v: Seq<InfoView>, live: Option<(Seq<char>, Seq<char>)>, i: int)
    requires
        0 <= i < v.len(),
    ensures
        list_text(v, live).len() == v.len() + 2,
        occurs(v[i].id, list_text(v, live)[i + 2]),
        occurs(v[i].strain, list_text(v, live)[i + 2]),
        "* "@.is_prefix_of(list_text(v, live)[i + 2]) <==> (live matches Some(x) && x.0
            == v[i].strain && x.1 == v[i].id),
        v[i].metadata matches Some(m) ==> occurs(meta_text(m), list_text(v, live)[i + 2]),
        list_text(Seq::empty(), live) == seq!["No snapshots found."@],
{
    let s = v[i];
    let row = list_text(v, live)[i + 2];
    assert(row == list_row(s, live));
    let starred = live == Some((s.strain, s.id));
    let mark = if starred {
        "* "@
    } else {
        "  "@
    };
    let text = match s.metadata {
        Some(m) => meta_text(m),
        None => "—"@,
    };
    let (a, b) = (padded(s.id, 17), padded(s.strain, 12));
    assert(row =~= mark + a + " "@ + b + " "@ + text);
    assert(a =~= s.id + a.skip(s.id.len() as int)) by {
        assert(a.take(s.id.len() as int) =~= s.id);
    }
    assert(b =~= s.strain + b.skip(s.strain.len() as int)) by {
        assert(b.take(s.strain.len() as int) =~= s.strain);
    }
    lemma_occurs(mark, s.id, a.skip(s.id.len() as int) + " "@ + b + " "@ + text, row);
    lemma_occurs(mark + a + " "@, s.strain, b.skip(s.strain.len() as int) + " "@ + text, row);
    if s.metadata is Some {
        lemma_occurs(mark + a + " "@ + b + " "@, text, Seq::empty(), row);
    }
    reveal_strlit("* ");
    reveal_strlit("  ");
    if starred {
        assert("* "@ =~= row.subrange(0, 2));
    } else {
        assert(row[0] == ' ');
        if "* "@.is_prefix_of(row) {
            assert(row.subrange(0, 2)[0] == '*');
        }
    }
    if live is Some {
        let x = live->0;
        assert(starred <==> x.0 == s.strain && x.1 == s.id);
    }
}

/// What is shown of a record begins with its trigger, and shows its notes where
/// there are any and they fit.
pub proof fn law_record_line(m: MetaView)
    ensures
        (match m.trigger {
            TriggerKind::Manual => "manual"@,
            TriggerKind::Pacman => "pacman"@,
            TriggerKind::SystemdBoot => "systemd-boot"@,
            TriggerKind::SystemdPeriodic => "systemd-periodic"@,
            TriggerKind::Restore => "restore"@,
            TriggerKind::Unknown => "unknown"@,
        }).is_prefix_of(meta_text(m)),
        message_items(m.message) matches Some(t) ==> (t.len() <= 60 || m.trigger
            == TriggerKind::Pacman || m.trigger == TriggerKind::SystemdBoot || m.trigger
            == TriggerKind::SystemdPeriodic ==> occurs(t, meta_text(m))),
        m.message.len() == 0 ==> meta_text(m) == crate::metadata::wire_text(m.trigger),
{
    let w = crate::metadata::wire_text(m.trigger);
    let s = meta_text(m);
    assert(w =~= s.subrange(0, w.len() as int));
    if message_items(m.message) is Some {
        let t = message_items(m.message)->0;
        match m.trigger {
            TriggerKind::Pacman => {
                lemma_occurs(w + ": "@, t, Seq::empty(), s);
            },
            TriggerKind::SystemdBoot => {
                lemma_occurs(w + " ("@, t, ")"@, s);
            },
            TriggerKind::SystemdPeriodic => {
                lemma_occurs(w + " ("@, t, ")"@, s);
            },
            _ => {
                if t.len() <= 60 {
                    lemma_occurs(w + " — \""@, t, "\""@, s);
                }
            },
        }
    }
    if m.message.len() == 0 {
        assert(s =~= w);
    }
}

proof fn lemma_count_members<T>(v: Seq<T>, p: spec_fn(T) -> bool)
    ensures
        Set::new(|i: int| 0 <= i < v.len() && p(v[i])).finite(),
        v.len() == 0 ==> Set::new(|i: int| 0 <= i < v.len() && p(v[i])).len() == 0,
        v.len() > 0 ==> Set::new(|i: int| 0 <= i < v.len() && p(v[i])).len() == Set::new(
            |i: int| 0 <= i < v.drop_last().len() && p(v.drop_last()[i]),
        ).len() + if p(v.last()) {
            1nat
        } else {
            0nat
        },
    decreases v.len(),
{
    let s = Set::new(|i: int| 0 <= i < v.len() && p(v[i]));
    vstd::set_lib::lemma_int_range(0, v.len() as int);
    vstd::set_lib::lemma_set_subset_finite(
        vstd::set_lib::set_int_range(0, v.len() as int),
        s,
    );
    if v.len() == 0 {
        assert(s =~= Set::empty());
    } else {
        let u = v.drop_last();
        lemma_count_members(u, p);
        let t = Set::new(|i: int| 0 <= i < u.len() && p(u[i]));
        let n = v.len() - 1;
        assert(!t.contains(n));
        if p(v.last()) {
            assert(s =~= t.insert(n));
        } else {
            assert(s =~= t);
        }
    }
}

/// The number of snapshots shown for a strain is that of the listed snapshots
/// of the strain; the number of findings shown for a severity is that of the
/// findings of the severity.
pub proof fn law_counts(v: Seq<InfoView>, strain: Seq<char>)
    ensures
        strain_count(v, strain) == Set::new(
            |i: int| 0 <= i < v.len() && v[i].strain == strain,
        ).len(),
    decreases v.len(),
{
    let p = |s: InfoView| s.strain == strain;
    lemma_count_members(v, p);
    assert(Set::new(|i: int| 0 <= i < v.len() && v[i].strain == strain) =~= Set::new(
        |i: int| 0 <= i < v.len() && p(v[i]),
    ));
    if v.len() > 0 {
        let u = v.drop_last();
        law_counts(u, strain);
        assert(Set::new(|i: int| 0 <= i < u.len() && u[i].strain == strain) =~= Set::new(
            |i: int| 0 <= i < u.len() && p(u[i]),
        ));
    }
}

/// The number of findings shown for a severity is that of the findings of the
/// severity.
pub proof fn law_severity_counts(v: Seq<Finding>, s: Severity)
    ensures
        severity_count(v, s) == Set::new(|i: int| 0 <= i < v.len() && v[i].severity == s).len(),
    decreases v.len(),
{
    let p = |f: Finding| f.severity == s;
    lemma_count_members(v, p);
    assert(Set::new(|i: int| 0 <= i < v.len() && v[i].severity == s) =~= Set::new(
        |i: int| 0 <= i < v.len() && p(v[i]),
    ));
    if v.len() > 0 {
        let u = v.drop_last();
        law_severity_counts(u, s);
        assert(Set::new(|i: int| 0 <= i < u.len() && u[i].severity == s) =~= Set::new(
            |i: int| 0 <= i < u.len() && p(u[i]),
        ));
    }
}

/// The number of snapshots that a preview keeps is that of its rows that keep.
pub proof fn law_kept_counts(v: Seq<PlanEntry>)
    ensures
        kept_count(v) == Set::new(|i: int| 0 <= i < v.len() && v[i].action is Keep).len(),
    decreases v.len(),
{
    let p = |e: PlanEntry| e.action is Keep;
    lemma_count_members(v, p);
    assert(Set::new(|i: int| 0 <= i < v.len() && v[i].action is Keep) =~= Set::new(
        |i: int| 0 <= i < v.len() && p(v[i]),
    ));
    if v.len() > 0 {
        let u = v.drop_last();
        law_kept_counts(u);
        assert(Set::new(|i: int| 0 <= i < u.len() && u[i].action is Keep) =~= Set::new(
            |i: int| 0 <= i < u.len() && p(u[i]),
        ));
    }
}

/// What occurs in a text occurs in a longer one.
proof fn lemma_occurs_more(part: Seq<char>, s: Seq<char>, rest: Seq<char>)
    requires
        occurs(part, s),
    ensures
        occurs(part, s + rest),
{
    let (a, b) = choose|a: Seq<char>, b: Seq<char>| s == #[trigger] (a + part + b);
    lemma_occurs(a, part, b + rest, s + rest);
}

/// A tier behind what was shown before it.
proof fn lemma_tier_shown(s: Seq<char>, spaced: Seq<char>, name: Seq<char>, n: nat)
    requires
        spaced == " "@ + name,
    ensures
        occurs(name + dec(n), s + spaced + dec(n)),
{
    lemma_occurs(s + " "@, name + dec(n), Seq::empty(), s + spaced + dec(n));
}

proof fn lemma_tier_names()
    ensures
        " hourly="@ == " "@ + "hourly="@,
        " daily="@ == " "@ + "daily="@,
        " weekly="@ == " "@ + "weekly="@,
        " monthly="@ == " "@ + "monthly="@,
        " yearly="@ == " "@ + "yearly="@,
{
    reveal_strlit(" hourly=");
    reveal_strlit(" daily=");
    reveal_strlit(" weekly=");
    reveal_strlit(" monthly=");
    reveal_strlit(" yearly=");
    reveal_strlit("hourly=");
    reveal_strlit("daily=");
    reveal_strlit("weekly=");
    reveal_strlit("monthly=");
    reveal_strlit("yearly=");
    reveal_strlit(" ");
    assert(" hourly="@ =~= " "@ + "hourly="@);
    assert(" daily="@ =~= " "@ + "daily="@);
    assert(" weekly="@ =~= " "@ + "weekly="@);
    assert(" monthly="@ =~= " "@ + "monthly="@);
    assert(" yearly="@ =~= " "@ + "yearly="@);
}

/// A policy in full shows every tier with its count.
pub proof fn law_policy_shown(r: RetainConfig)
    ensures
        occurs("last="@ + dec(r.last as nat), retain_full(r)),
        occurs("hourly="@ + dec(r.hourly as nat), retain_full(r)),
        occurs("daily="@ + dec(r.daily as nat), retain_full(r)),
        occurs("weekly="@ + dec(r.weekly as nat), retain_full(r)),
        occurs("monthly="@ + dec(r.monthly as nat), retain_full(r)),
        occurs("yearly="@ + dec(r.yearly as nat), retain_full(r)),
{
    lemma_tier_names();
    let (a, b, c) = (dec(r.last as nat), dec(r.hourly as nat), dec(r.daily as nat));
    let (d, e, f) = (dec(r.weekly as nat), dec(r.monthly as nat), dec(r.yearly as nat));
    let s1 = "last="@ + a;
    let s2 = s1 + " hourly="@ + b;
    let s3 = s2 + " daily="@ + c;
    let s4 = s3 + " weekly="@ + d;
    let s5 = s4 + " monthly="@ + e;
    let s6 = s5 + " yearly="@ + f;
    assert(s6 == retain_full(r));
    lemma_occurs(Seq::empty(), s1, Seq::empty(), s1);
    lemma_tier_shown(s1, " hourly="@, "hourly="@, r.hourly as nat);
    lemma_tier_shown(s2, " daily="@, "daily="@, r.daily as nat);
    lemma_tier_shown(s3, " weekly="@, "weekly="@, r.weekly as nat);
    lemma_tier_shown(s4, " monthly="@, "monthly="@, r.monthly as nat);
    lemma_tier_shown(s5, " yearly="@, "yearly="@, r.yearly as nat);
    lemma_kept_on(s1, s1, " hourly="@, b);
    lemma_kept_on(s1, s2, " daily="@, c);
    lemma_kept_on(s1, s3, " weekly="@, d);
    lemma_kept_on(s1, s4, " monthly="@, e);
    lemma_kept_on(s1, s5, " yearly="@, f);
    let x = "hourly="@ + b;
    lemma_kept_on(x, s2, " daily="@, c);
    lemma_kept_on(x, s3, " weekly="@, d);
    lemma_kept_on(x, s4, " monthly="@, e);
    lemma_kept_on(x, s5, " yearly="@, f);
    let y = "daily="@ + c;
    lemma_kept_on(y, s3, " weekly="@, d);
    lemma_kept_on(y, s4, " monthly="@, e);
    lemma_kept_on(y, s5, " yearly="@, f);
    let z = "weekly="@ + d;
    lemma_kept_on(z, s4, " monthly="@, e);
    lemma_kept_on(z, s5, " yearly="@, f);
    let w = "monthly="@ + e;
    lemma_kept_on(w, s5, " yearly="@, f);
}

proof fn lemma_kept_on(part: Seq<char>, s: Seq<char>, a: Seq<char>, b: Seq<char>)
    requires
        occurs(part, s),
    ensures
        occurs(part, s + a + b),
{
    lemma_occurs_more(part, s, a);
    lemma_occurs_more(part, s + a, b);
}

/// A policy in short shows the tiers that are not 0, each with its count, and
/// no others.
pub proof fn law_policy_in_short(r: RetainConfig, p: Seq<char>)
    ensures
        retain_parts(r).contains(p) <==> (r.last > 0 && p == "last="@ + dec(r.last as nat)) || (
        r.hourly > 0 && p == "hourly="@ + dec(r.hourly as nat)) || (r.daily > 0 && p == "daily="@
            + dec(r.daily as nat)) || (r.weekly > 0 && p == "weekly="@ + dec(r.weekly as nat)) || (
        r.monthly > 0 && p == "monthly="@ + dec(r.monthly as nat)) || (r.yearly > 0 && p
            == "yearly="@ + dec(r.yearly as nat)),
{
    let a = crate::cli::output::retain_part("last="@, r.last);
    let b = crate::cli::output::retain_part("hourly="@, r.hourly);
    let c = crate::cli::output::retain_part("daily="@, r.daily);
    let d = crate::cli::output::retain_part("weekly="@, r.weekly);
    let e = crate::cli::output::retain_part("monthly="@, r.monthly);
    let f = crate::cli::output::retain_part("yearly="@, r.yearly);
    lemma_part("last="@, r.last, p);
    lemma_part("hourly="@, r.hourly, p);
    lemma_part("daily="@, r.daily, p);
    lemma_part("weekly="@, r.weekly, p);
    lemma_part("monthly="@, r.monthly, p);
    lemma_part("yearly="@, r.yearly, p);
    lemma_either(a, b, p);
    lemma_either(a + b, c, p);
    lemma_either(a + b + c, d, p);
    lemma_either(a + b + c + d, e, p);
    lemma_either(a + b + c + d + e, f, p);
}

proof fn lemma_part(name: Seq<char>, n: usize, p: Seq<char>)
    ensures
        crate::cli::output::retain_part(name, n).contains(p) <==> n > 0 && p == name + dec(
            n as nat,
        ),
{
    let v = crate::cli::output::retain_part(name, n);
    if n > 0 {
        assert(v[0] == name + dec(n as nat));
    }
}

proof fn lemma_either(a: Seq<Seq<char>>, b: Seq<Seq<char>>, p: Seq<char>)
    ensures
        (a + b).contains(p) <==> a.contains(p) || b.contains(p),
{
    let s = a + b;
    if a.contains(p) {
        let k = choose|k: int| 0 <= k < a.len() && a[k] == p;
        assert(s[k] == p);
    }
    if b.contains(p) {
        let k = choose|k: int| 0 <= k < b.len() && b[k] == p;
        assert(s[a.len() + k] == p);
    }
    if s.contains(p) {
        let k = choose|k: int| 0 <= k < s.len() && s[k] == p;
        if k < a.len() {
            assert(a[k] == p);
        } else {
            assert(b[k - a.len()] == p);
        }
    }
}

/// The status shows the settings, a line for each strain with its name, its
/// policy and the number of its snapshots, and how many snapshots there are.
pub proof fn law_status(c: ConfigView, v: Seq<InfoView>, i: int)
    requires
        0 <= i < c.strain.len(),
    ensures
        status_text(c, v).contains("Device UUID:        "@ + c.sys.device_uuid),
        status_text(c, v).contains("Rootfs subvolume:   "@ + c.sys.rootfs_subvol),
        status_text(c, v).contains("Snapshot subvolume: "@ + c.sys.snapshot_subvol),
        status_text(c, v).contains("Bootloader:         "@ + c.sys.bootloader),
        c.sys.efi_enabled ==> status_text(c, v).contains("EFI sync:           "@ + "enabled"@)
            && status_text(c, v).contains("EFI mount point:    "@ + c.sys.efi_mount),
        !c.sys.efi_enabled ==> status_text(c, v).contains("EFI sync:           "@ + "disabled"@),
        status_text(c, v).last() == "Total snapshots:    "@ + dec(v.len()),
        exists|k: int|
            0 <= k < status_text(c, v).len() && ("  "@ + c.strain[i].0 + ": "@).is_prefix_of(
                #[trigger] status_text(c, v)[k],
            ) && occurs(retain_full(c.strain[i].1.retain), status_text(c, v)[k]) && (
            ", snapshots="@ + dec(strain_count(v, c.strain[i].0))).is_suffix_of(
                status_text(c, v)[k],
            ),
{
    let t = status_text(c, v);
    let h = sys_lines(c);
    let n = h.len() as int;
    assert(t[3] == "Device UUID:        "@ + c.sys.device_uuid);
    assert(t[4] == "Rootfs subvolume:   "@ + c.sys.rootfs_subvol);
    assert(t[5] == "Snapshot subvolume: "@ + c.sys.snapshot_subvol);
    assert(t[n - 3] == "Bootloader:         "@ + c.sys.bootloader);
    if c.sys.efi_enabled {
        assert(t[6] == "EFI sync:           "@ + "enabled"@);
        assert(t[7] == "EFI mount point:    "@ + c.sys.efi_mount);
    } else {
        assert(t[6] == "EFI sync:           "@ + "disabled"@);
    }
    let (name, s) = c.strain[i];
    let line = strain_line(name, s, strain_count(v, name));
    assert(t[n + i] == line);
    reveal_strlit(": ");
    reveal_strlit(": retain=[");
    let full = retain_full(s.retain);
    let mid = "], subvolumes="@ + crate::error::list_form(s.subvolumes) + ", efi="@
        + crate::cli::output::bool_text(s.efi);
    let tail = ", snapshots="@ + dec(strain_count(v, name));
    let open = ": retain=["@;
    assert(open =~= ": "@ + open.skip(2));
    assert(line =~= "  "@ + name + open + full + mid + tail);
    let start = "  "@ + name + ": "@;
    assert(start =~= line.subrange(0, start.len() as int));
    assert(tail =~= line.subrange(line.len() - tail.len(), line.len() as int));
    lemma_occurs("  "@ + name + open, full, mid + tail, line);
}

/// A preview says of each snapshot that it is kept, with every reason, or that
/// it is deleted.
pub proof fn law_preview_rows(e: PlanEntry)
    ensures
        e.action matches PlanAction::Keep { reasons } ==> ("  KEEP    "@ + e.id@).is_prefix_of(
            plan_line(e),
        ) && forall|k: int|
            0 <= k < reasons@.len() ==> occurs(
                match #[trigger] reasons@[k] {
                    KeepReason::Protected => "protected"@,
                    KeepReason::Last => "last"@,
                    KeepReason::Hourly => "hourly"@,
                    KeepReason::Daily => "daily"@,
                    KeepReason::Weekly => "weekly"@,
                    KeepReason::Monthly => "monthly"@,
                    KeepReason::Yearly => "yearly"@,
                },
                plan_line(e),
            ),
        e.action is Delete ==> ("  DELETE  "@ + e.id@).is_prefix_of(plan_line(e)),
{
    let s = plan_line(e);
    match e.action {
        PlanAction::Keep { reasons } => {
            let head = "  KEEP    "@ + e.id@;
            let texts = crate::cli::output::reason_texts(reasons@);
            let list = joined(texts, ", "@);
            assert(s =~= head + "   "@ + list);
            assert(head =~= s.subrange(0, head.len() as int));
            assert forall|k: int| 0 <= k < reasons@.len() implies occurs(
                match #[trigger] reasons@[k] {
                    KeepReason::Protected => "protected"@,
                    KeepReason::Last => "last"@,
                    KeepReason::Hourly => "hourly"@,
                    KeepReason::Daily => "daily"@,
                    KeepReason::Weekly => "weekly"@,
                    KeepReason::Monthly => "monthly"@,
                    KeepReason::Yearly => "yearly"@,
                },
                s,
            ) by {
                lemma_joined_has(texts, ", "@, k);
                let part = texts[k];
                let (x, y) = choose|x: Seq<char>, y: Seq<char>| list == #[trigger] (x + part + y);
                lemma_occurs(head + "   "@ + x, part, y, s);
            }
        },
        PlanAction::Delete => {
            let head = "  DELETE  "@ + e.id@;
            assert(head =~= s.subrange(0, head.len() as int));
        },
    }
}

proof fn lemma_block_in(v: Seq<StrainPlan>, i: int, line: Seq<char>)
    requires
        0 <= i < v.len(),
        strain_block(v[i]).contains(line),
    ensures
        strain_blocks(v).contains(line),
    decreases v.len(),
{
    let first = strain_blocks(v.drop_last());
    let last = strain_block(v.last());
    let all = strain_blocks(v);
    if i == v.len() - 1 {
        let k = choose|k: int| 0 <= k < last.len() && last[k] == line;
        assert(all[first.len() + k] == line);
    } else {
        lemma_block_in(v.drop_last(), i, line);
        let k = choose|k: int| 0 <= k < first.len() && first[k] == line;
        assert(all[k] == line);
    }
}

/// A preview shows every strain with its policy, a row for each of its
/// snapshots, and every marker that would be purged.
pub proof fn law_preview(
    strains: Seq<StrainPlan>,
    tombstones: Seq<PlanTombstone>,
    i: int,
    j: int,
)
    requires
        0 <= i < strains.len(),
    ensures
        plan_text(strains, tombstones).contains(
            "Strain: "@ + strains[i].strain@ + "  (retain: "@ + retain_line(strains[i].retain)
                + ")"@,
        ),
        0 <= j < strains[i].entries@.len() ==> plan_text(strains, tombstones).contains(
            plan_line(strains[i].entries@[j]),
        ),
        0 <= j < tombstones.len() && tombstones[j].would_purge ==> plan_text(
            strains,
            tombstones,
        ).contains("  "@ + tombstones[j].tombstone.name@),
{
    let t = plan_text(strains, tombstones);
    let blocks = strain_blocks(strains);
    let block = strain_block(strains[i]);
    let head = "Strain: "@ + strains[i].strain@ + "  (retain: "@ + retain_line(strains[i].retain)
        + ")"@;
    assert(block[0] == head);
    lemma_block_in(strains, i, head);
    let k = choose|k: int| 0 <= k < blocks.len() && blocks[k] == head;
    assert(t[2 + k] == head);
    if 0 <= j < strains[i].entries@.len() {
        let line = plan_line(strains[i].entries@[j]);
        assert(block[1 + j] == line);
        lemma_block_in(strains, i, line);
        let m = choose|m: int| 0 <= m < blocks.len() && blocks[m] == line;
        assert(t[2 + m] == line);
    }
    if 0 <= j < tombstones.len() && tombstones[j].would_purge {
        let names = purge_names(tombstones);
        law_previewed_names(tombstones, tombstones[j].tombstone.name@);
        let m = choose|m: int| 0 <= m < names.len() && names[m] == tombstones[j].tombstone.name@;
        assert(t[2 + blocks.len() + 1 + m] == "  "@ + names[m]);
    }
}

/// The markers shown as pending are those that the preview marks.
pub proof fn law_previewed_names(v: Seq<PlanTombstone>, n: Seq<char>)
    ensures
        purge_names(v).contains(n) <==> exists|i: int|
            0 <= i < v.len() && (#[trigger] v[i]).would_purge && v[i].tombstone.name@ == n,
    decreases v.len(),
{
    if v.len() > 0 {
        let u = v.drop_last();
        law_previewed_names(u, n);
        let (m, first) = (purge_names(v), purge_names(u));
        if first.contains(n) {
            let k = choose|k: int| 0 <= k < first.len() && first[k] == n;
            assert(m[k] == n);
            let i = choose|i: int|
                0 <= i < u.len() && (#[trigger] u[i]).would_purge && u[i].tombstone.name@ == n;
            assert(v[i] == u[i]);
        } else if m.contains(n) {
            let k = choose|k: int| 0 <= k < m.len() && m[k] == n;
            if k < first.len() {
                assert(first[k] == n);
            }
            assert(v[v.len() - 1] == v.last());
        }
        if exists|i: int|
            0 <= i < v.len() && (#[trigger] v[i]).would_purge && v[i].tombstone.name@ == n {
            let i = choose|i: int|
                0 <= i < v.len() && (#[trigger] v[i]).would_purge && v[i].tombstone.name@ == n;
            if i < u.len() {
                assert(u[i] == v[i]);
            } else {
                assert(m[first.len() as int] == n);
            }
        }
    }
}

/// A cleanup shows everything that it removed, and says so if that is nothing.
pub proof fn law_cleanup_shown(removed: Seq<Seq<char>>, sidecars: Seq<Seq<char>>, i: int)
    ensures
        0 <= i < removed.len() ==> cleanup_text(removed, sidecars).contains(
            "Removed: "@ + removed[i],
        ),
        0 <= i < sidecars.len() ==> cleanup_text(removed, sidecars).contains(
            "Removed orphaned sidecar: "@ + sidecars[i],
        ),
        removed.len() == 0 && sidecars.len() == 0 <==> cleanup_text(removed, sidecars) == seq![
            "No snapshots to clean up."@,
        ],
{
    let t = cleanup_text(removed, sidecars);
    if 0 <= i < removed.len() {
        assert(t[i] == "Removed: "@ + removed[i]);
    }
    if 0 <= i < sidecars.len() {
        assert(t[removed.len() + i] == "Removed orphaned sidecar: "@ + sidecars[i]);
    }
    if removed.len() > 0 || sidecars.len() > 0 {
        assert(t.len() >= 2);
    }
}

/// A new snapshot is shown with its ID and strain, and with what retention
/// removed after it; a deletion shows what it deleted.
pub proof fn law_results_shown(
    info: InfoView,
    removed: Seq<Seq<char>>,
    strain: Seq<char>,
    deleted: Seq<Seq<char>>,
    i: int,
)
    ensures
        created_text(info, removed)[0] == "Snapshot created: "@ + info.id + " (strain: "@
            + info.strain + ")"@,
        0 <= i < removed.len() ==> created_text(info, removed).contains(
            "Retention: removed old snapshot "@ + removed[i],
        ),
        0 <= i < deleted.len() ==> deleted_text(strain, deleted, false).contains(
            "Deleted: "@ + deleted[i],
        ),
        deleted.len() > 0 ==> deleted_text(strain, deleted, true) == seq![
            "Snapshot "@ + deleted[0] + " deleted."@,
        ],
{
    let t = created_text(info, removed);
    let n = if info.metadata is Some {
        2int
    } else {
        1int
    };
    if 0 <= i < removed.len() {
        assert(t[n + i] == "Retention: removed old snapshot "@ + removed[i]);
    }
    if 0 <= i < deleted.len() {
        assert(deleted_text(strain, deleted, false)[i] == "Deleted: "@ + deleted[i]);
    }
}

/// A restore that was not confirmed shows the snapshot, every subvolume that it
/// would replace, and the mount point that it would sync, if any; one that is
/// done shows the snapshot that was taken before it, if any.
pub proof fn law_restore_shown(
    id: Seq<char>,
    strain: Seq<char>,
    subvolumes: Seq<Seq<char>>,
    efi_mount: Option<Seq<char>>,
    pre: Option<InfoView>,
    i: int,
)
    ensures
        refusal_text(id, strain, subvolumes, efi_mount).contains(
            "Target snapshot: "@ + id + " (strain: "@ + strain + ")"@,
        ),
        0 <= i < subvolumes.len() ==> refusal_text(id, strain, subvolumes, efi_mount).contains(
            "  "@ + subvolumes[i] + "  →  renamed to "@ + subvolumes[i]
                + "-DELETE-<ts>, then re-created from the snapshot"@,
        ),
        efi_mount matches Some(m) ==> refusal_text(id, strain, subvolumes, efi_mount).contains(
            "The EFI staging area would be synced back to "@ + m + "."@,
        ),
        pre matches Some(p) ==> success_text(pre)[0] == "Pre-restore snapshot: "@ + p.id
            + " (strain: "@ + p.strain + ")"@,
        success_text(pre).last() == "Restore complete. Please reboot to apply changes."@,
{
    let t = refusal_text(id, strain, subvolumes, efi_mount);
    assert(t[2] == "Target snapshot: "@ + id + " (strain: "@ + strain + ")"@);
    if 0 <= i < subvolumes.len() {
        assert(t[4 + i] == "  "@ + subvolumes[i] + "  →  renamed to "@ + subvolumes[i]
            + "-DELETE-<ts>, then re-created from the snapshot"@);
    }
    if efi_mount is Some {
        assert(t[4int + subvolumes.len()] == "The EFI staging area would be synced back to "@
            + efi_mount->0 + "."@);
    }
}

/// Every finding is shown with its severity, its check and its message, and
/// with its hint if it has one; without findings all checks have passed.
pub proof fn law_findings_shown(v: Seq<Finding>, i: int)
    requires
        0 <= i < v.len(),
    ensures
        findings_text(v).contains(
            "["@ + (match v[i].severity {
                Severity::Info => "INFO"@,
                Severity::Warning => "WARN"@,
                Severity::Error => "ERROR"@,
            }) + "] "@ + v[i].check@ + ": "@ + v[i].message@,
        ),
        v[i].hint matches Some(h) ==> findings_text(v).contains("       hint: "@ + h@),
        findings_text(Seq::empty()) == seq!["All checks passed."@],
{
    let t = findings_text(v);
    let all = all_finding_lines(v);
    let mine = finding_lines(v[i]);
    lemma_lines_in(v, i, mine[0]);
    let k = choose|k: int| 0 <= k < all.len() && all[k] == mine[0];
    assert(t[k] == mine[0]);
    if v[i].hint is Some {
        lemma_lines_in(v, i, mine[1]);
        let m = choose|m: int| 0 <= m < all.len() && all[m] == mine[1];
        assert(t[m] == mine[1]);
    }
}

proof fn lemma_lines_in(v: Seq<Finding>, i: int, line: Seq<char>)
    requires
        0 <= i < v.len(),
        finding_lines(v[i]).contains(line),
    ensures
        all_finding_lines(v).contains(line),
    decreases v.len(),
{
    let first = all_finding_lines(v.drop_last());
    let last = finding_lines(v.last());
    let all = all_finding_lines(v);
    if i == v.len() - 1 {
        let k = choose|k: int| 0 <= k < last.len() && last[k] == line;
        assert(all[first.len() + k] == line);
    } else {
        lemma_lines_in(v.drop_last(), i, line);
        let k = choose|k: int| 0 <= k < first.len() && first[k] == line;
        assert(all[k] == line);
    }
}

/// A snapshot taken by hand is triggered manually unless a trigger is given,
/// which is then its own.
pub proof fn law_trigger_argument(a: TriggerKindArg)
    ensures
        trigger_of(None) == TriggerKind::Manual,
        trigger_of(Some(a)) == TriggerKind::Manual <==> a == TriggerKindArg::Manual,
        trigger_of(Some(a)) == TriggerKind::Pacman <==> a == TriggerKindArg::Pacman,
        trigger_of(Some(a)) == TriggerKind::SystemdBoot <==> a == TriggerKindArg::SystemdBoot,
        trigger_of(Some(a)) == TriggerKind::SystemdPeriodic <==> a
            == TriggerKindArg::SystemdPeriodic,
        trigger_of(Some(a)) != TriggerKind::Restore,
{
}

/// The notes read from lines are the lines that are not blank, trimmed.
pub proof fn law_notes_from_lines(lines: Seq<Seq<char>>, t: Seq<char>)
    ensures
        message_lines(lines).contains(t) <==> t.len() > 0 && exists|i: int|
            0 <= i < lines.len() && trimmed_text(#[trigger] lines[i]) == t,
    decreases lines.len(),
{
    if lines.len() > 0 {
        let u = lines.drop_last();
        law_notes_from_lines(u, t);
        let (m, first) = (message_lines(lines), message_lines(u));
        if first.contains(t) {
            let k = choose|k: int| 0 <= k < first.len() && first[k] == t;
            assert(m[k] == t);
            let i = choose|i: int| 0 <= i < u.len() && trimmed_text(#[trigger] u[i]) == t;
            assert(lines[i] == u[i]);
        } else if m.contains(t) {
            let k = choose|k: int| 0 <= k < m.len() && m[k] == t;
            if k < first.len() {
                assert(first[k] == t);
            }
            assert(lines[lines.len() - 1] == lines.last());
        }
        if t.len() > 0 && exists|i: int|
            0 <= i < lines.len() && trimmed_text(#[trigger] lines[i]) == t {
            let i = choose|i: int| 0 <= i < lines.len() && trimmed_text(#[trigger] lines[i]) == t;
            if i < u.len() {
                assert(u[i] == lines[i]);
            } else {
                assert(m[first.len() as int] == t);
            }
        }
    }
}

/// A policy in short is its tiers with a space between them, or a word that it
/// has none.
pub proof fn law_policy_line(r: RetainConfig)
    ensures
        retain_parts(r).len() == 0 ==> retain_line(r) == "(none)"@,
        retain_parts(r).len() > 0 ==> retain_line(r) == joined(retain_parts(r), " "@),
{
}

/// The line of a strain in the status says whether it syncs EFI, and names its
/// subvolumes.
pub proof fn law_strain_shown(name: Seq<char>, s: StrainView, count: nat)
    ensures
        s.efi ==> occurs(", efi="@ + "true"@, strain_line(name, s, count)),
        !s.efi ==> occurs(", efi="@ + "false"@, strain_line(name, s, count)),
        occurs(crate::error::list_form(s.subvolumes), strain_line(name, s, count)),
{
    let t = strain_line(name, s, count);
    let a = "  "@ + name + ": retain=["@ + retain_full(s.retain) + "], subvolumes="@;
    let list = crate::error::list_form(s.subvolumes);
    let flag = ", efi="@ + (if s.efi {
        "true"@
    } else {
        "false"@
    });
    let b = ", snapshots="@ + dec(count);
    crate::laws::setup::lemma_occurs(a + list, flag, b, t);
    crate::laws::setup::lemma_occurs(a, list, flag + b, t);
}

} // verus!
