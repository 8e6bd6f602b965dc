//! Rendering of command results as lines of text.

use vstd::prelude::*;
use vstd::string::*;

use crate::check::{severity_label, Finding, Severity};
use crate::cleanup::{
    CleanupSummary, PlanAction, PlanEntry, PlanTombstone, RetentionPlan, StrainPlan,
};
use crate::config::{strain_views, Config, ConfigView, RetainConfig, StrainView};
use crate::error::{list_form, quoted_list};
use crate::metadata::{
    format_message_items, message_items, wire_text, MetaView, SnapshotMetadata, TriggerKind,
};
use crate::retention::{reason_text, KeepReason};
use crate::snapshot::discovery::{live_view, LiveParentRef};
use crate::snapshot::info::{infos, InfoView, SnapshotInfo};
use crate::text::{
    cat2, cat3, cat4, cat5, cat6, cat7, chars_of, dec, decimal, join_texts, joined,
    lemma_views_push, same_text, text_of, views,
};

verus! {

/// Append a line.
fn emit(out: &mut Vec<String>, line: String)
    ensures
        views(final(out)@) == views(old(out)@).push(line@),
{
    proof {
        lemma_views_push(out@, line);
    }
    out.push(line);
}

/// `n` times the character `c`.
pub open spec fn repeated(c: char, n: int) -> Seq<char> {
    Seq::new(n as nat, |i: int| c)
}

/// `n` times the character `c`.
fn repeat(c: char, n: usize) -> (r: String)
    ensures
        r@ == repeated(c, n as int),
{
    let mut s: String = String::new();
    let mut i: usize = 0;
    assert(s@ =~= repeated(c, 0));
    while i < n
        invariant
            i <= n,
            s@ == repeated(c, i as int),
        decreases n - i,
    {
        s.push(c);
        i = i + 1;
        assert(s@ =~= repeated(c, i as int));
    }
    s
}

/// The text, filled up with spaces to `n` characters.
pub open spec fn padded(s: Seq<char>, n: int) -> Seq<char> {
    if s.len() >= n {
        s
    } else {
        s + repeated(' ', n - s.len())
    }
}

/// The text, filled up with spaces to `n` characters.
fn pad(s: &str, n: usize) -> (r: String)
    ensures
        r@ == padded(s@, n as int),
{
    let len: usize = s.unicode_len();
    if len >= n {
        s.to_owned()
    } else {
        cat2(s, repeat(' ', n - len).as_str())
    }
}

/// The text cut to at most `max` characters, the last of them an ellipsis
/// where something was cut.
pub open spec fn truncated(s: Seq<char>, max: int) -> Seq<char> {
    if max == 0 {
        Seq::empty()
    } else if s.len() <= max {
        s
    } else {
        s.take(max - 1).push('…')
    }
}

/// Truncate a text to at most `max` characters, appending `…` when cut.
pub fn truncate(s: &str, max: usize) -> (r: String)
    ensures
        r@ == truncated(s@, max as int),
        r@.len() <= max,
{
    if max == 0 {
        return String::new();
    }
    let v = chars_of(s);
    if v.len() <= max {
        s.to_owned()
    } else {
        let mut out = text_of(&v, 0, max - 1);
        assert(out@ =~= s@.take(max - 1));
        out.push('…');
        out
    }
}

/// What a metadata record says of its snapshot beside the trigger: package
/// names, the unit, or a note.
pub open spec fn meta_detail(m: MetaView) -> Seq<char> {
    match message_items(m.message) {
        None => Seq::empty(),
        Some(t) => match m.trigger {
            TriggerKind::Pacman => ": "@ + t,
            TriggerKind::SystemdBoot => " ("@ + t + ")"@,
            TriggerKind::SystemdPeriodic => " ("@ + t + ")"@,
            _ => " — \""@ + truncated(t, 60) + "\""@,
        },
    }
}

/// The one-line summary of a metadata record.
pub open spec fn meta_text(m: MetaView) -> Seq<char> {
    wire_text(m.trigger) + meta_detail(m)
}

/// Render a compact one-line summary of the metadata for humans.
pub fn metadata_summary(meta: &SnapshotMetadata) -> (r: String)
    ensures
        r@ == meta_text(meta@),
{
    let kind = meta.trigger.as_wire_str();
    match format_message_items(&meta.message) {
        None => {
            assert(wire_text(meta@.trigger) =~= meta_text(meta@));
            kind.to_owned()
        },
        Some(t) => {
            let r = match meta.trigger {
                TriggerKind::Pacman => cat3(kind, ": ", t.as_str()),
                TriggerKind::SystemdBoot => cat4(kind, " (", t.as_str(), ")"),
                TriggerKind::SystemdPeriodic => cat4(kind, " (", t.as_str(), ")"),
                _ => cat4(kind, " — \"", truncate(t.as_str(), 60).as_str(), "\""),
            };
            assert(r@ =~= meta_text(meta@));
            r
        },
    }
}

/// The row of a snapshot in the list. The snapshot that the live subvolume was
/// cloned from has a leading `*`.
pub open spec fn list_row(s: InfoView, live: Option<(Seq<char>, Seq<char>)>) -> Seq<char> {
    let mark = if live == Some((s.strain, s.id)) {
        "* "@
    } else {
        "  "@
    };
    let text = match s.metadata {
        Some(m) => meta_text(m),
        None => "—"@,
    };
    mark + padded(s.id, 17) + " "@ + padded(s.strain, 12) + " "@ + text
}

/// The rows of the snapshots in the list.
pub open spec fn list_rows(v: Seq<InfoView>, live: Option<(Seq<char>, Seq<char>)>) -> Seq<
    Seq<char>,
> {
    Seq::new(v.len(), |i: int| list_row(v[i], live))
}

/// The list of snapshots.
pub open spec fn list_text(v: Seq<InfoView>, live: Option<(Seq<char>, Seq<char>)>) -> Seq<
    Seq<char>,
> {
    if v.len() == 0 {
        seq!["No snapshots found."@]
    } else {
        seq![
            "  "@ + padded("ID"@, 17) + " "@ + padded("Strain"@, 12) + " Description"@,
            repeated('-', 60),
        ] + list_rows(v, live)
    }
}

/// Render a list of snapshot records.
pub fn print_snapshot_list(snapshots: &Vec<SnapshotInfo>, live: Option<&LiveParentRef>) -> (r: Vec<
    String,
>)
    ensures
        views(r@) == list_text(infos(snapshots@), live_view(live)),
{
    let mut out: Vec<String> = Vec::new();
    if snapshots.len() == 0 {
        emit(&mut out, "No snapshots found.".to_owned());
        assert(views(out@) =~= list_text(infos(snapshots@), live_view(live)));
        return out;
    }
    emit(
        &mut out,
        cat5("  ", pad("ID", 17).as_str(), " ", pad("Strain", 12).as_str(), " Description"),
    );
    emit(&mut out, repeat('-', 60));
    let ghost head = views(out@);
    let ghost v = infos(snapshots@);
    let ghost l = live_view(live);
    let mut i: usize = 0;
    assert(views(out@) =~= head + list_rows(v, l).take(0));
    while i < snapshots.len()
        invariant
            i <= snapshots.len(),
            v == infos(snapshots@),
            l == live_view(live),
            views(out@) == head + list_rows(v, l).take(i as int),
        decreases snapshots.len() - i,
    {
        let s = &snapshots[i];
        let text = match &s.metadata {
            Some(m) => metadata_summary(m),
            None => "—".to_owned(),
        };
        let marked = match live {
            Some(x) => same_text(x.strain.as_str(), s.strain.as_str()) && same_text(
                x.id.as_str(),
                s.id.as_str(),
            ),
            None => false,
        };
        let mark = if marked {
            "* "
        } else {
            "  "
        };
        let row = cat6(
            mark,
            pad(s.id.as_str(), 17).as_str(),
            " ",
            pad(s.strain.as_str(), 12).as_str(),
            " ",
            text.as_str(),
        );
        proof {
            assert(v[i as int] == s@);
            assert(row@ == list_row(s@, l));
            assert(list_rows(v, l).take(i + 1) =~= list_rows(v, l).take(i as int).push(row@));
            assert(head + list_rows(v, l).take(i + 1) =~= (head + list_rows(v, l).take(
                i as int,
            )).push(row@));
        }
        emit(&mut out, row);
        i = i + 1;
    }
    proof {
        assert(list_rows(v, l).take(i as int) =~= list_rows(v, l));
        assert(head =~= seq![
            "  "@ + padded("ID"@, 17) + " "@ + padded("Strain"@, 12) + " Description"@,
            repeated('-', 60),
        ]);
    }
    out
}

/// The number of the snapshots that belong to a strain.
pub open spec fn strain_count(v: Seq<InfoView>, strain: Seq<char>) -> nat
    decreases v.len(),
{
    if v.len() == 0 {
        0
    } else {
        strain_count(v.drop_last(), strain) + if v.last().strain == strain {
            1nat
        } else {
            0nat
        }
    }
}

/// Count the snapshots of a strain.
pub fn count_strain(snapshots: &Vec<SnapshotInfo>, strain: &str) -> (r: usize)
    ensures
        r == strain_count(infos(snapshots@), strain@),
{
    let ghost v = infos(snapshots@);
    let mut n: usize = 0;
    let mut i: usize = 0;
    assert(v.take(0) =~= Seq::empty());
    while i < snapshots.len()
        invariant
            i <= snapshots.len(),
            n <= i,
            v == infos(snapshots@),
            n == strain_count(v.take(i as int), strain@),
        decreases snapshots.len() - i,
    {
        proof {
            assert(v.take(i + 1).drop_last() =~= v.take(i as int));
            assert(v.take(i + 1).last() == snapshots@[i as int]@);
        }
        if same_text(snapshots[i].strain.as_str(), strain) {
            n = n + 1;
        }
        i = i + 1;
    }
    assert(v.take(i as int) =~= v);
    n
}

/// A retention policy in full.
pub open spec fn retain_full(r: RetainConfig) -> Seq<char> {
    "last="@ + dec(r.last as nat) + " hourly="@ + dec(r.hourly as nat) + " daily="@ + dec(
        r.daily as nat,
    ) + " weekly="@ + dec(r.weekly as nat) + " monthly="@ + dec(r.monthly as nat) + " yearly="@
        + dec(r.yearly as nat)
}

fn retain_full_text(r: &RetainConfig) -> (s: String)
    ensures
        s@ == retain_full(*r),
{
    let a = cat6(
        "last=",
        decimal(r.last as u64).as_str(),
        " hourly=",
        decimal(r.hourly as u64).as_str(),
        " daily=",
        decimal(r.daily as u64).as_str(),
    );
    cat7(
        a.as_str(),
        " weekly=",
        decimal(r.weekly as u64).as_str(),
        " monthly=",
        decimal(r.monthly as u64).as_str(),
        " yearly=",
        decimal(r.yearly as u64).as_str(),
    )
}

/// The tiers of a retention policy that are not disabled, as `name=count`.
pub open spec fn retain_parts(r: RetainConfig) -> Seq<Seq<char>> {
    retain_part("last="@, r.last) + retain_part("hourly="@, r.hourly) + retain_part(
        "daily="@,
        r.daily,
    ) + retain_part("weekly="@, r.weekly) + retain_part("monthly="@, r.monthly) + retain_part(
        "yearly="@,
        r.yearly,
    )
}

/// A tier, unless it is disabled.
pub open spec fn retain_part(name: Seq<char>, n: usize) -> Seq<Seq<char>> {
    if n > 0 {
        seq![name + dec(n as nat)]
    } else {
        Seq::empty()
    }
}

/// The one-line summary of a retention policy.
pub open spec fn retain_line(r: RetainConfig) -> Seq<char> {
    if retain_parts(r).len() == 0 {
        "(none)"@
    } else {
        joined(retain_parts(r), " "@)
    }
}

fn add_part(parts: &mut Vec<String>, name: &str, n: usize)
    ensures
        views(final(parts)@) == views(old(parts)@) + retain_part(name@, n),
{
    let ghost before = views(parts@);
    if n > 0 {
        let line = cat2(name, decimal(n as u64).as_str());
        emit(parts, line);
        assert(views(parts@) =~= before + retain_part(name@, n));
    } else {
        assert(views(parts@) =~= before + retain_part(name@, n));
    }
}

/// Render a retention policy as a one-line summary like
/// `last=10 hourly=48 daily=7`, skipping zero-valued fields.
pub fn retain_summary_text(r: &RetainConfig) -> (s: String)
    ensures
        s@ == retain_line(*r),
{
    let mut parts: Vec<String> = Vec::new();
    add_part(&mut parts, "last=", r.last);
    add_part(&mut parts, "hourly=", r.hourly);
    add_part(&mut parts, "daily=", r.daily);
    add_part(&mut parts, "weekly=", r.weekly);
    add_part(&mut parts, "monthly=", r.monthly);
    add_part(&mut parts, "yearly=", r.yearly);
    assert(views(parts@) =~= retain_parts(*r));
    if parts.len() == 0 {
        "(none)".to_owned()
    } else {
        join_texts(&parts, " ")
    }
}

/// `true` or `false`.
pub open spec fn bool_text(b: bool) -> Seq<char> {
    if b {
        "true"@
    } else {
        "false"@
    }
}

fn show_bool(b: bool) -> (r: &'static str)
    ensures
        r@ == bool_text(b),
{
    if b {
        "true"
    } else {
        "false"
    }
}

/// The status line of a strain.
pub open spec fn strain_line(name: Seq<char>, s: StrainView, count: nat) -> Seq<char> {
    "  "@ + name + ": retain=["@ + retain_full(s.retain) + "], subvolumes="@ + list_form(
        s.subvolumes,
    ) + ", efi="@ + bool_text(s.efi) + ", snapshots="@ + dec(count)
}

/// The status lines of the strains.
pub open spec fn strain_lines(
    strains: Seq<(Seq<char>, StrainView)>,
    snapshots: Seq<InfoView>,
) -> Seq<Seq<char>> {
    Seq::new(
        strains.len(),
        |i: int| strain_line(strains[i].0, strains[i].1, strain_count(snapshots, strains[i].0)),
    )
}

/// The status lines of the system settings.
pub open spec fn sys_lines(c: ConfigView) -> Seq<Seq<char>> {
    seq![
        "Revenant Status"@,
        repeated('=', 40),
        "Rootfs backend:     "@ + c.sys.backend,
        "Device UUID:        "@ + c.sys.device_uuid,
        "Rootfs subvolume:   "@ + c.sys.rootfs_subvol,
        "Snapshot subvolume: "@ + c.sys.snapshot_subvol,
        "EFI sync:           "@ + if c.sys.efi_enabled {
            "enabled"@
        } else {
            "disabled"@
        },
    ] + if c.sys.efi_enabled {
        seq![
            "EFI mount point:    "@ + c.sys.efi_mount,
            "EFI staging subvol: "@ + c.sys.staging_subvol,
        ]
    } else {
        Seq::empty()
    } + seq!["Bootloader:         "@ + c.sys.bootloader, ""@, "Strains:"@]
}

/// The status of the system.
pub open spec fn status_text(c: ConfigView, snapshots: Seq<InfoView>) -> Seq<Seq<char>> {
    sys_lines(c) + strain_lines(c.strain, snapshots) + seq![
        ""@,
        "Total snapshots:    "@ + dec(snapshots.len()),
    ]
}

fn emit_sys(out: &mut Vec<String>, config: &Config)
    requires
        old(out)@.len() == 0,
    ensures
        views(final(out)@) == sys_lines(config@),
{
    emit(out, "Revenant Status".to_owned());
    emit(out, repeat('=', 40));
    emit(out, cat2("Rootfs backend:     ", config.sys.rootfs.backend.as_str()));
    emit(out, cat2("Device UUID:        ", config.sys.rootfs.device_uuid.as_str()));
    emit(out, cat2("Rootfs subvolume:   ", config.sys.rootfs_subvol.as_str()));
    emit(out, cat2("Snapshot subvolume: ", config.sys.snapshot_subvol.as_str()));
    let state = if config.sys.efi.enabled {
        "enabled"
    } else {
        "disabled"
    };
    emit(out, cat2("EFI sync:           ", state));
    if config.sys.efi.enabled {
        emit(out, cat2("EFI mount point:    ", config.sys.efi.mount_point.as_str()));
        emit(out, cat2("EFI staging subvol: ", config.sys.efi.staging_subvol.as_str()));
    }
    emit(out, cat2("Bootloader:         ", config.sys.bootloader.backend.as_str()));
    emit(out, "".to_owned());
    emit(out, "Strains:".to_owned());
    assert(views(out@) =~= sys_lines(config@));
}

/// Render system status information.
pub fn print_status(config: &Config, snapshots: &Vec<SnapshotInfo>) -> (r: Vec<String>)
    ensures
        views(r@) == status_text(config@, infos(snapshots@)),
{
    let mut out: Vec<String> = Vec::new();
    emit_sys(&mut out, config);
    let ghost head = views(out@);
    let ghost v = infos(snapshots@);
    let ghost all = strain_lines(config@.strain, v);
    let strains = config.strain.entries();
    let mut i: usize = 0;
    assert(views(out@) =~= head + all.take(0));
    while i < strains.len()
        invariant
            i <= strains.len(),
            v == infos(snapshots@),
            config@.strain == strain_views(strains@),
            all == strain_lines(config@.strain, v),
            views(out@) == head + all.take(i as int),
        decreases strains.len() - i,
    {
        let e = &strains[i];
        let count: usize = count_strain(snapshots, e.name.as_str());
        let retain = retain_full_text(&e.config.retain);
        let a = cat5(
            "  ",
            e.name.as_str(),
            ": retain=[",
            retain.as_str(),
            "], subvolumes=",
        );
        let line = cat6(
            a.as_str(),
            quoted_list(&e.config.subvolumes).as_str(),
            ", efi=",
            show_bool(e.config.efi),
            ", snapshots=",
            decimal(count as u64).as_str(),
        );
        proof {
            assert(line@ == all[i as int]);
            assert(all.take(i + 1) =~= all.take(i as int).push(line@));
            assert(head + all.take(i + 1) =~= (head + all.take(i as int)).push(line@));
        }
        emit(&mut out, line);
        i = i + 1;
    }
    assert(all.take(i as int) =~= all);
    emit(&mut out, "".to_owned());
    emit(&mut out, cat2("Total snapshots:    ", decimal(snapshots.len() as u64).as_str()));
    assert(views(out@) =~= status_text(config@, v));
    out
}

/// The texts of some reasons.
pub open spec fn reason_texts(v: Seq<KeepReason>) -> Seq<Seq<char>> {
    Seq::new(v.len(), |i: int| reason_text(v[i]))
}

/// The line of a snapshot in the dry run.
pub open spec fn plan_line(e: PlanEntry) -> Seq<char> {
    match e.action {
        PlanAction::Keep { reasons } => "  KEEP    "@ + e.id@ + "   "@ + joined(
            reason_texts(reasons@),
            ", "@,
        ),
        PlanAction::Delete => "  DELETE  "@ + e.id@ + "   no retention rule matches"@,
    }
}

/// The lines of some snapshots in the dry run.
pub open spec fn plan_lines(v: Seq<PlanEntry>) -> Seq<Seq<char>> {
    Seq::new(v.len(), |i: int| plan_line(v[i]))
}

/// The number of snapshots that the dry run keeps.
pub open spec fn kept_count(v: Seq<PlanEntry>) -> nat
    decreases v.len(),
{
    if v.len() == 0 {
        0
    } else {
        kept_count(v.drop_last()) + if v.last().action is Keep {
            1nat
        } else {
            0nat
        }
    }
}

/// The block of a strain in the dry run.
pub open spec fn strain_block(p: StrainPlan) -> Seq<Seq<char>> {
    seq!["Strain: "@ + p.strain@ + "  (retain: "@ + retain_line(p.retain) + ")"@] + if p.entries@.len()
        == 0 {
        seq!["  (no snapshots)"@]
    } else {
        plan_lines(p.entries@)
    } + seq![""@]
}

/// The blocks of the strains in the dry run.
pub open spec fn strain_blocks(v: Seq<StrainPlan>) -> Seq<Seq<char>>
    decreases v.len(),
{
    if v.len() == 0 {
        Seq::empty()
    } else {
        strain_blocks(v.drop_last()) + strain_block(v.last())
    }
}

/// The number of snapshots of all strains in the dry run, and how many of them
/// are kept.
pub open spec fn plan_counts(v: Seq<StrainPlan>) -> (nat, nat)
    decreases v.len(),
{
    if v.len() == 0 {
        (0, 0)
    } else {
        let (all, kept) = plan_counts(v.drop_last());
        (all + v.last().entries@.len(), kept + kept_count(v.last().entries@))
    }
}

/// The names of the markers that would be purged.
pub open spec fn purge_names(v: Seq<PlanTombstone>) -> Seq<Seq<char>>
    decreases v.len(),
{
    if v.len() == 0 {
        Seq::empty()
    } else {
        let before = purge_names(v.drop_last());
        if v.last().would_purge {
            before.push(v.last().tombstone.name@)
        } else {
            before
        }
    }
}

/// The names, each indented.
pub open spec fn indented(v: Seq<Seq<char>>) -> Seq<Seq<char>> {
    Seq::new(v.len(), |i: int| "  "@ + v[i])
}

/// The dry run of a cleanup.
pub open spec fn plan_text(strains: Seq<StrainPlan>, tombstones: Seq<PlanTombstone>) -> Seq<
    Seq<char>,
> {
    let names = purge_names(tombstones);
    let (all, kept) = plan_counts(strains);
    let summary = "Summary: "@ + dec(kept) + " kept, "@ + dec((all - kept) as nat) + " to delete"@;
    seq!["Dry-run — no changes will be made."@, ""@] + strain_blocks(strains) + if names.len()
        == 0 {
        Seq::empty()
    } else {
        seq!["DELETE markers (pending purge):"@] + indented(names) + seq![""@]
    } + seq![
        if names.len() == 0 {
            summary
        } else {
            summary + ", "@ + dec(names.len()) + " delete marker"@ + if names.len() == 1 {
                ""@
            } else {
                "s"@
            }
        },
    ]
}

fn reason_list(v: &Vec<KeepReason>) -> (r: String)
    ensures
        r@ == joined(reason_texts(v@), ", "@),
{
    let mut parts: Vec<String> = Vec::new();
    let ghost all = reason_texts(v@);
    let mut i: usize = 0;
    assert(views(parts@) =~= all.take(0));
    while i < v.len()
        invariant
            i <= v.len(),
            all == reason_texts(v@),
            views(parts@) == all.take(i as int),
        decreases v.len() - i,
    {
        emit(&mut parts, v[i].as_str().to_owned());
        assert(all.take(i + 1) =~= all.take(i as int).push(reason_text(v@[i as int])));
        i = i + 1;
    }
    assert(all.take(i as int) =~= all);
    join_texts(&parts, ", ")
}

/// Append the block of a strain; returns how many of its snapshots are kept.
fn emit_block(out: &mut Vec<String>, p: &StrainPlan) -> (kept: usize)
    ensures
        views(final(out)@) == views(old(out)@) + strain_block(*p),
        kept == kept_count(p.entries@),
        kept <= p.entries@.len(),
{
    let ghost before = views(out@);
    let retain = retain_summary_text(&p.retain);
    emit(out, cat5("Strain: ", p.strain.as_str(), "  (retain: ", retain.as_str(), ")"));
    let ghost head = views(out@);
    let ghost all = plan_lines(p.entries@);
    let mut kept: usize = 0;
    if p.entries.len() == 0 {
        emit(out, "  (no snapshots)".to_owned());
    } else {
        let mut i: usize = 0;
        assert(views(out@) =~= head + all.take(0));
        assert(p.entries@.take(0) =~= Seq::empty());
        while i < p.entries.len()
            invariant
                i <= p.entries.len(),
                kept <= i,
                all == plan_lines(p.entries@),
                kept == kept_count(p.entries@.take(i as int)),
                views(out@) == head + all.take(i as int),
            decreases p.entries.len() - i,
        {
            let e = &p.entries[i];
            proof {
                assert(p.entries@.take(i + 1).drop_last() =~= p.entries@.take(i as int));
                assert(p.entries@.take(i + 1).last() == p.entries@[i as int]);
            }
            let line = match &e.action {
                PlanAction::Keep { reasons } => {
                    kept = kept + 1;
                    cat4("  KEEP    ", e.id.as_str(), "   ", reason_list(reasons).as_str())
                },
                PlanAction::Delete => cat3(
                    "  DELETE  ",
                    e.id.as_str(),
                    "   no retention rule matches",
                ),
            };
            proof {
                assert(line@ == all[i as int]);
                assert(all.take(i + 1) =~= all.take(i as int).push(line@));
                assert(head + all.take(i + 1) =~= (head + all.take(i as int)).push(line@));
            }
            emit(out, line);
            i = i + 1;
        }
        assert(all.take(i as int) =~= all);
        assert(p.entries@.take(i as int) =~= p.entries@);
    }
    emit(out, "".to_owned());
    assert(views(out@) =~= before + strain_block(*p));
    kept
}

fn marker_names(v: &Vec<PlanTombstone>) -> (r: Vec<String>)
    ensures
        views(r@) == purge_names(v@),
{
    let mut out: Vec<String> = Vec::new();
    let mut i: usize = 0;
    assert(v@.take(0) =~= Seq::empty());
    while i < v.len()
        invariant
            i <= v.len(),
            views(out@) == purge_names(v@.take(i as int)),
        decreases v.len() - i,
    {
        proof {
            assert(v@.take(i + 1).drop_last() =~= v@.take(i as int));
            assert(v@.take(i + 1).last() == v@[i as int]);
        }
        if v[i].would_purge {
            emit(&mut out, v[i].tombstone.name.clone());
        }
        i = i + 1;
    }
    assert(v@.take(i as int) =~= v@);
    out
}

/// Append the texts, each behind `prefix`.
fn emit_prefixed(out: &mut Vec<String>, prefix: &str, v: &Vec<String>)
    ensures
        views(final(out)@) == views(old(out)@) + prefixed(prefix@, views(v@)),
{
    let ghost before = views(out@);
    let ghost all = prefixed(prefix@, views(v@));
    let mut i: usize = 0;
    assert(views(out@) =~= before + all.take(0));
    while i < v.len()
        invariant
            i <= v.len(),
            all == prefixed(prefix@, views(v@)),
            views(out@) == before + all.take(i as int),
        decreases v.len() - i,
    {
        let line = cat2(prefix, v[i].as_str());
        proof {
            assert(all.take(i + 1) =~= all.take(i as int).push(line@));
            assert(before + all.take(i + 1) =~= (before + all.take(i as int)).push(line@));
        }
        emit(out, line);
        i = i + 1;
    }
    assert(all.take(i as int) =~= all);
}

/// The texts, each behind `prefix`.
pub open spec fn prefixed(prefix: Seq<char>, v: Seq<Seq<char>>) -> Seq<Seq<char>> {
    Seq::new(v.len(), |i: int| prefix + v[i])
}

/// Whether the snapshots of the dry run can be counted in a `usize`.
pub open spec fn countable(v: Seq<StrainPlan>) -> bool {
    plan_counts(v).0 <= usize::MAX
}

proof fn lemma_counts_take(v: Seq<StrainPlan>, k: int)
    requires
        0 <= k <= v.len(),
    ensures
        plan_counts(v.take(k)).0 <= plan_counts(v).0,
    decreases v.len(),
{
    if k < v.len() {
        assert(v.drop_last().take(k) =~= v.take(k));
        lemma_counts_take(v.drop_last(), k);
    } else {
        assert(v.take(k) =~= v);
    }
}

/// Render a dry-run retention plan.
pub fn print_retention_plan(plan: &RetentionPlan) -> (r: Vec<String>)
    requires
        countable(plan.strains@),
    ensures
        views(r@) == plan_text(plan.strains@, plan.tombstones@),
{
    let mut out: Vec<String> = Vec::new();
    emit(&mut out, "Dry-run — no changes will be made.".to_owned());
    emit(&mut out, "".to_owned());
    let ghost head = views(out@);
    let ghost v = plan.strains@;
    let mut all: usize = 0;
    let mut kept: usize = 0;
    let mut i: usize = 0;
    assert(v.take(0) =~= Seq::empty());
    assert(views(out@) =~= head + strain_blocks(v.take(0)));
    while i < plan.strains.len()
        invariant
            i <= plan.strains.len(),
            v == plan.strains@,
            countable(v),
            kept <= all,
            (all as nat, kept as nat) == plan_counts(v.take(i as int)),
            views(out@) == head + strain_blocks(v.take(i as int)),
        decreases plan.strains.len() - i,
    {
        proof {
            assert(v.take(i + 1).drop_last() =~= v.take(i as int));
            assert(v.take(i + 1).last() == v[i as int]);
            lemma_counts_take(v, i + 1);
        }
        let k: usize = emit_block(&mut out, &plan.strains[i]);
        all = all + plan.strains[i].entries.len();
        kept = kept + k;
        assert(views(out@) =~= head + strain_blocks(v.take(i + 1)));
        i = i + 1;
    }
    assert(v.take(i as int) =~= v);
    let names = marker_names(&plan.tombstones);
    if names.len() > 0 {
        emit(&mut out, "DELETE markers (pending purge):".to_owned());
        emit_prefixed(&mut out, "  ", &names);
        assert(prefixed("  "@, views(names@)) =~= indented(views(names@)));
        emit(&mut out, "".to_owned());
    }
    let summary = cat5(
        "Summary: ",
        decimal(kept as u64).as_str(),
        " kept, ",
        decimal((all - kept) as u64).as_str(),
        " to delete",
    );
    if names.len() == 0 {
        emit(&mut out, summary);
    } else {
        let plural = if names.len() == 1 {
            ""
        } else {
            "s"
        };
        let n = decimal(names.len() as u64);
        emit(&mut out, cat5(summary.as_str(), ", ", n.as_str(), " delete marker", plural));
    }
    assert(views(out@) =~= plan_text(plan.strains@, plan.tombstones@));
    out
}

/// The result of a cleanup.
pub open spec fn cleanup_text(removed: Seq<Seq<char>>, sidecars: Seq<Seq<char>>) -> Seq<Seq<char>> {
    if removed.len() == 0 && sidecars.len() == 0 {
        seq!["No snapshots to clean up."@]
    } else {
        prefixed("Removed: "@, removed) + prefixed("Removed orphaned sidecar: "@, sidecars)
            + if removed.len() > 0 {
            seq!["Cleaned up "@ + dec(removed.len()) + " snapshot(s)."@]
        } else {
            Seq::empty()
        } + if sidecars.len() > 0 {
            seq!["Removed "@ + dec(sidecars.len()) + " orphaned sidecar(s)."@]
        } else {
            Seq::empty()
        }
    }
}

/// Render the result of a live cleanup run.
pub fn print_cleanup_result(summary: &CleanupSummary) -> (r: Vec<String>)
    ensures
        views(r@) == cleanup_text(views(summary.removed@), views(summary.removed_sidecars@)),
{
    let mut out: Vec<String> = Vec::new();
    if summary.removed.len() == 0 && summary.removed_sidecars.len() == 0 {
        emit(&mut out, "No snapshots to clean up.".to_owned());
    } else {
        emit_prefixed(&mut out, "Removed: ", &summary.removed);
        emit_prefixed(&mut out, "Removed orphaned sidecar: ", &summary.removed_sidecars);
        if summary.removed.len() > 0 {
            let n = decimal(summary.removed.len() as u64);
            emit(&mut out, cat3("Cleaned up ", n.as_str(), " snapshot(s)."));
        }
        if summary.removed_sidecars.len() > 0 {
            let n = decimal(summary.removed_sidecars.len() as u64);
            emit(&mut out, cat3("Removed ", n.as_str(), " orphaned sidecar(s)."));
        }
    }
    assert(views(out@) =~= cleanup_text(
        views(summary.removed@),
        views(summary.removed_sidecars@),
    ));
    out
}

/// The result of taking a snapshot.
pub open spec fn created_text(info: InfoView, removed: Seq<Seq<char>>) -> Seq<Seq<char>> {
    seq!["Snapshot created: "@ + info.id + " (strain: "@ + info.strain + ")"@] + (
    match info.metadata {
        Some(m) => seq!["  "@ + meta_text(m)],
        None => Seq::empty(),
    }) + prefixed("Retention: removed old snapshot "@, removed)
}

/// Render the result of a `snapshot` invocation.
pub fn print_snapshot_created(info: &SnapshotInfo, retention_removed: &Vec<String>) -> (r: Vec<
    String,
>)
    ensures
        views(r@) == created_text(info@, views(retention_removed@)),
{
    let mut out: Vec<String> = Vec::new();
    emit(
        &mut out,
        cat5("Snapshot created: ", info.id.as_str(), " (strain: ", info.strain.as_str(), ")"),
    );
    match &info.metadata {
        Some(m) => {
            emit(&mut out, cat2("  ", metadata_summary(m).as_str()));
        },
        None => {},
    }
    emit_prefixed(&mut out, "Retention: removed old snapshot ", retention_removed);
    assert(views(out@) =~= created_text(info@, views(retention_removed@)));
    out
}

/// The result of a deletion: of one snapshot, or of a strain's.
pub open spec fn deleted_text(strain: Seq<char>, deleted: Seq<Seq<char>>, single: bool) -> Seq<
    Seq<char>,
> {
    if single {
        if deleted.len() == 0 {
            Seq::empty()
        } else {
            seq!["Snapshot "@ + deleted[0] + " deleted."@]
        }
    } else if deleted.len() == 0 {
        seq!["No snapshots found for strain '"@ + strain + "'."@]
    } else {
        prefixed("Deleted: "@, deleted).push(
            "Deleted "@ + dec(deleted.len()) + " snapshot(s) from strain '"@ + strain + "'."@,
        )
    }
}

/// Render the result of a `delete` invocation.
pub fn print_delete_result(strain: &str, deleted: &Vec<String>, single: bool) -> (r: Vec<String>)
    ensures
        views(r@) == deleted_text(strain@, views(deleted@), single),
{
    let mut out: Vec<String> = Vec::new();
    if single {
        if deleted.len() > 0 {
            emit(&mut out, cat3("Snapshot ", deleted[0].as_str(), " deleted."));
        }
    } else if deleted.len() == 0 {
        emit(&mut out, cat3("No snapshots found for strain '", strain, "'."));
    } else {
        emit_prefixed(&mut out, "Deleted: ", deleted);
        let n = decimal(deleted.len() as u64);
        emit(&mut out, cat5("Deleted ", n.as_str(), " snapshot(s) from strain '", strain, "'."));
    }
    assert(views(out@) =~= deleted_text(strain@, views(deleted@), single));
    out
}

/// The lines of the subvolumes that a restore would replace.
pub open spec fn replaced_lines(v: Seq<Seq<char>>) -> Seq<Seq<char>> {
    Seq::new(
        v.len(),
        |i: int|
            "  "@ + v[i] + "  →  renamed to "@ + v[i]
                + "-DELETE-<ts>, then re-created from the snapshot"@,
    )
}

/// What is shown of a restore that was not confirmed. `efi_mount` is the mount
/// point that would be synced.
pub open spec fn refusal_text(
    id: Seq<char>,
    strain: Seq<char>,
    subvolumes: Seq<Seq<char>>,
    efi_mount: Option<Seq<char>>,
) -> Seq<Seq<char>> {
    seq![
        "Restore is destructive and requires explicit confirmation."@,
        ""@,
        "Target snapshot: "@ + id + " (strain: "@ + strain + ")"@,
        "The following live subvolumes would be replaced:"@,
    ] + replaced_lines(subvolumes) + (match efi_mount {
        Some(m) => seq!["The EFI staging area would be synced back to "@ + m + "."@],
        None => Seq::empty(),
    }) + seq![
        ""@,
        "The renamed "@ + (if subvolumes.len() == 0 {
            "@"@
        } else {
            subvolumes[0]
        }) + "-DELETE-<ts> subvolume(s) survive until the next `revenantctl cleanup`"@,
        "(or the next restore), so they can serve as a volatile undo buffer for the"@,
        "previous live state.  No automatic pre-restore snapshot is created any more —"@,
        "pass --save-current to snapshot the current state into the target strain"@,
        "as part of this restore, or run `revenantctl snapshot` beforehand."@,
        ""@,
        "Re-run with --yes to proceed."@,
    ]
}

/// Render the refusal block for `restore` without `--yes`.
pub fn print_restore_refusal(
    snap: &SnapshotInfo,
    subvolumes: &Vec<String>,
    efi_mount: Option<&str>,
) -> (r: Vec<String>)
    ensures
        views(r@) == refusal_text(
            snap@.id,
            snap@.strain,
            views(subvolumes@),
            crate::text::opt_str(efi_mount),
        ),
{
    let mut out: Vec<String> = Vec::new();
    emit(&mut out, "Restore is destructive and requires explicit confirmation.".to_owned());
    emit(&mut out, "".to_owned());
    emit(
        &mut out,
        cat5("Target snapshot: ", snap.id.as_str(), " (strain: ", snap.strain.as_str(), ")"),
    );
    emit(&mut out, "The following live subvolumes would be replaced:".to_owned());
    let ghost head = views(out@);
    let ghost all = replaced_lines(views(subvolumes@));
    let mut i: usize = 0;
    assert(views(out@) =~= head + all.take(0));
    while i < subvolumes.len()
        invariant
            i <= subvolumes.len(),
            all == replaced_lines(views(subvolumes@)),
            views(out@) == head + all.take(i as int),
        decreases subvolumes.len() - i,
    {
        let s = subvolumes[i].as_str();
        let line = cat5(
            "  ",
            s,
            "  →  renamed to ",
            s,
            "-DELETE-<ts>, then re-created from the snapshot",
        );
        proof {
            assert(all.take(i + 1) =~= all.take(i as int).push(line@));
            assert(head + all.take(i + 1) =~= (head + all.take(i as int)).push(line@));
        }
        emit(&mut out, line);
        i = i + 1;
    }
    assert(all.take(i as int) =~= all);
    match efi_mount {
        Some(m) => {
            emit(&mut out, cat3("The EFI staging area would be synced back to ", m, "."));
        },
        None => {},
    }
    emit(&mut out, "".to_owned());
    let first: &str = if subvolumes.len() == 0 {
        "@"
    } else {
        subvolumes[0].as_str()
    };
    emit(
        &mut out,
        cat3(
            "The renamed ",
            first,
            "-DELETE-<ts> subvolume(s) survive until the next `revenantctl cleanup`",
        ),
    );
    emit(
        &mut out,
        "(or the next restore), so they can serve as a volatile undo buffer for the".to_owned(),
    );
    emit(
        &mut out,
        "previous live state.  No automatic pre-restore snapshot is created any more —".to_owned(),
    );
    emit(
        &mut out,
        "pass --save-current to snapshot the current state into the target strain".to_owned(),
    );
    emit(
        &mut out,
        "as part of this restore, or run `revenantctl snapshot` beforehand.".to_owned(),
    );
    emit(&mut out, "".to_owned());
    emit(&mut out, "Re-run with --yes to proceed.".to_owned());
    assert(views(out@) =~= refusal_text(
        snap@.id,
        snap@.strain,
        views(subvolumes@),
        crate::text::opt_str(efi_mount),
    ));
    out
}

/// The completion message after a restore.
pub open spec fn success_text(pre: Option<InfoView>) -> Seq<Seq<char>> {
    (match pre {
        Some(p) => seq!["Pre-restore snapshot: "@ + p.id + " (strain: "@ + p.strain + ")"@],
        None => Seq::empty(),
    }).push("Restore complete. Please reboot to apply changes."@)
}

/// A snapshot that may be there, with its texts.
pub open spec fn opt_info(s: Option<&SnapshotInfo>) -> Option<InfoView> {
    match s {
        Some(i) => Some(i@),
        None => None,
    }
}

/// Render the completion message after a successful restore. `pre_restore` is
/// the snapshot that was taken of the previous state.
pub fn print_restore_success(pre_restore: Option<&SnapshotInfo>) -> (r: Vec<String>)
    ensures
        views(r@) == success_text(opt_info(pre_restore)),
{
    let mut out: Vec<String> = Vec::new();
    match pre_restore {
        Some(p) => {
            emit(
                &mut out,
                cat5(
                    "Pre-restore snapshot: ",
                    p.id.as_str(),
                    " (strain: ",
                    p.strain.as_str(),
                    ")",
                ),
            );
        },
        None => {},
    }
    emit(&mut out, "Restore complete. Please reboot to apply changes.".to_owned());
    assert(views(out@) =~= success_text(opt_info(pre_restore)));
    out
}

/// How many findings there are of each severity.
#[derive(Debug, Clone, Copy, PartialEq, Eq, Structural)]
pub struct CheckSummary {
    pub errors: usize,
    pub warnings: usize,
    pub infos: usize,
}

/// The number of findings of a severity.
pub open spec fn severity_count(v: Seq<Finding>, s: Severity) -> nat
    decreases v.len(),
{
    if v.len() == 0 {
        0
    } else {
        severity_count(v.drop_last(), s) + if v.last().severity == s {
            1nat
        } else {
            0nat
        }
    }
}

/// Count the findings of each severity.
pub fn summarize_findings(findings: &Vec<Finding>) -> (r: CheckSummary)
    ensures
        r.errors == severity_count(findings@, Severity::Error),
        r.warnings == severity_count(findings@, Severity::Warning),
        r.infos == severity_count(findings@, Severity::Info),
{
    let ghost v = findings@;
    let mut r = CheckSummary { errors: 0, warnings: 0, infos: 0 };
    let mut i: usize = 0;
    assert(v.take(0) =~= Seq::empty());
    while i < findings.len()
        invariant
            i <= findings.len(),
            v == findings@,
            r.errors <= i,
            r.warnings <= i,
            r.infos <= i,
            r.errors == severity_count(v.take(i as int), Severity::Error),
            r.warnings == severity_count(v.take(i as int), Severity::Warning),
            r.infos == severity_count(v.take(i as int), Severity::Info),
        decreases findings.len() - i,
    {
        proof {
            assert(v.take(i + 1).drop_last() =~= v.take(i as int));
            assert(v.take(i + 1).last() == v[i as int]);
        }
        match findings[i].severity {
            Severity::Error => {
                r.errors = r.errors + 1;
            },
            Severity::Warning => {
                r.warnings = r.warnings + 1;
            },
            Severity::Info => {
                r.infos = r.infos + 1;
            },
        }
        i = i + 1;
    }
    assert(v.take(i as int) =~= v);
    r
}

/// The lines of a finding.
pub open spec fn finding_lines(f: Finding) -> Seq<Seq<char>> {
    seq!["["@ + severity_label(f.severity) + "] "@ + f.check@ + ": "@ + f.message@] + (
    match f.hint {
        Some(h) => seq!["       hint: "@ + h@],
        None => Seq::empty(),
    })
}

/// The lines of some findings.
pub open spec fn all_finding_lines(v: Seq<Finding>) -> Seq<Seq<char>>
    decreases v.len(),
{
    if v.len() == 0 {
        Seq::empty()
    } else {
        all_finding_lines(v.drop_last()) + finding_lines(v.last())
    }
}

/// The result of the checks.
pub open spec fn findings_text(v: Seq<Finding>) -> Seq<Seq<char>> {
    if v.len() == 0 {
        seq!["All checks passed."@]
    } else {
        all_finding_lines(v) + seq![
            ""@,
            "Summary: "@ + dec(severity_count(v, Severity::Error)) + " error(s), "@ + dec(
                severity_count(v, Severity::Warning),
            ) + " warning(s), "@ + dec(severity_count(v, Severity::Info)) + " info(s)"@,
        ]
    }
}

/// Render a list of check findings with a summary footer.
pub fn print_findings(findings: &Vec<Finding>) -> (r: Vec<String>)
    ensures
        views(r@) == findings_text(findings@),
{
    let mut out: Vec<String> = Vec::new();
    if findings.len() == 0 {
        emit(&mut out, "All checks passed.".to_owned());
        assert(views(out@) =~= findings_text(findings@));
        return out;
    }
    let ghost v = findings@;
    let mut i: usize = 0;
    assert(v.take(0) =~= Seq::empty());
    while i < findings.len()
        invariant
            i <= findings.len(),
            v == findings@,
            views(out@) == all_finding_lines(v.take(i as int)),
        decreases findings.len() - i,
    {
        let f = &findings[i];
        let ghost before = views(out@);
        proof {
            assert(v.take(i + 1).drop_last() =~= v.take(i as int));
            assert(v.take(i + 1).last() == v[i as int]);
        }
        emit(
            &mut out,
            cat6("[", f.severity.label(), "] ", f.check, ": ", f.message.as_str()),
        );
        match &f.hint {
            Some(h) => {
                emit(&mut out, cat2("       hint: ", h.as_str()));
            },
            None => {},
        }
        assert(views(out@) =~= before + finding_lines(*f));
        i = i + 1;
    }
    assert(v.take(i as int) =~= v);
    let s = summarize_findings(findings);
    emit(&mut out, "".to_owned());
    emit(
        &mut out,
        cat7(
            "Summary: ",
            decimal(s.errors as u64).as_str(),
            " error(s), ",
            decimal(s.warnings as u64).as_str(),
            " warning(s), ",
            decimal(s.infos as u64).as_str(),
            " info(s)",
        ),
    );
    assert(views(out@) =~= findings_text(findings@));
    out
}

} // verus!
