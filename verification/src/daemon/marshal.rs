//! The library's values as they go over the bus.

use vstd::prelude::*;
use vstd::string::*;

use crate::check::{finding_views, severity_label, Finding, FindingView};
use crate::cleanup::tombstones::{Tombstone, TombstoneView};
use crate::clock::{format_wall_time, rfc3339, WallTime};
use crate::config::{RetainConfig, StrainConfig, StrainView};
use crate::metadata::{wire_text, MetaView};
use crate::snapshot::discovery::{live_view, LiveParentRef};
use crate::snapshot::id::id_moment;
use crate::snapshot::info::{InfoView, SnapshotInfo};
use crate::text::{clone_texts, join_texts, joined, same_text, views};

verus! {

/// A value in a dictionary.
#[derive(Debug)]
pub enum WireValue {
    Text(String),
    Flag(bool),
    Count(u32),
    /// Dictionaries of texts.
    Dicts(Vec<Vec<TextEntry>>),
}

/// A key and a text.
#[derive(Debug)]
pub struct TextEntry {
    pub key: &'static str,
    pub value: String,
}

/// A key and a value.
#[derive(Debug)]
pub struct DictEntry {
    pub key: &'static str,
    pub value: WireValue,
}

/// A dictionary with extensible keys, none of them twice.
#[derive(Debug)]
pub struct Dict {
    pub entries: Vec<DictEntry>,
}

/// A dictionary of texts.
pub type TextDict = Seq<(Seq<char>, Seq<char>)>;

/// A value with its texts.
pub enum WireView {
    Text(Seq<char>),
    Flag(bool),
    Count(u32),
    Dicts(Seq<TextDict>),
}

/// A dictionary of texts with its keys.
pub open spec fn text_dict(v: Seq<TextEntry>) -> TextDict {
    Seq::new(v.len(), |i: int| (v[i].key@, v[i].value@))
}

/// Some dictionaries of texts.
pub open spec fn text_dicts(v: Seq<Vec<TextEntry>>) -> Seq<TextDict> {
    Seq::new(v.len(), |i: int| text_dict(v[i]@))
}

impl View for WireValue {
    type V = WireView;

    open spec fn view(&self) -> WireView {
        match self {
            WireValue::Text(s) => WireView::Text(s@),
            WireValue::Flag(b) => WireView::Flag(*b),
            WireValue::Count(n) => WireView::Count(*n),
            WireValue::Dicts(v) => WireView::Dicts(text_dicts(v@)),
        }
    }
}

impl View for Dict {
    type V = Seq<(Seq<char>, WireView)>;

    open spec fn view(&self) -> Seq<(Seq<char>, WireView)> {
        Seq::new(self.entries@.len(), |i: int| (self.entries@[i].key@, self.entries@[i].value@))
    }
}

impl Dict {
    /// The empty dictionary.
    pub fn new() -> (r: Self)
        ensures
            r@ == Seq::<(Seq<char>, WireView)>::empty(),
    {
        let r = Dict { entries: Vec::new() };
        assert(r@ =~= Seq::empty());
        r
    }

    fn put(&mut self, key: &'static str, value: WireValue)
        ensures
            final(self)@ == old(self)@.push((key@, value@)),
    {
        let ghost before = self@;
        self.entries.push(DictEntry { key, value });
        assert(self@ =~= before.push((key@, value@)));
    }

    /// Append a text.
    pub fn insert_str(&mut self, key: &'static str, value: &str)
        ensures
            final(self)@ == old(self)@.push((key@, WireView::Text(value@))),
    {
        self.put(key, WireValue::Text(value.to_owned()));
    }

    /// Append a truth value.
    pub fn insert_bool(&mut self, key: &'static str, value: bool)
        ensures
            final(self)@ == old(self)@.push((key@, WireView::Flag(value))),
    {
        self.put(key, WireValue::Flag(value));
    }

    /// Append a number.
    pub fn insert_u32(&mut self, key: &'static str, value: u32)
        ensures
            final(self)@ == old(self)@.push((key@, WireView::Count(value))),
    {
        self.put(key, WireValue::Count(value));
    }

    /// Append the findings under `findings`, also where there are none.
    pub fn attach_findings(&mut self, findings: &Vec<Finding>)
        ensures
            final(self)@ == old(self)@.push(
                ("findings"@, WireView::Dicts(finding_dicts(finding_views(findings@)))),
            ),
    {
        let mut out: Vec<Vec<TextEntry>> = Vec::new();
        let ghost all = finding_dicts(finding_views(findings@));
        let mut i: usize = 0;
        assert(text_dicts(out@) =~= all.take(0));
        while i < findings.len()
            invariant
                i <= findings.len(),
                all == finding_dicts(finding_views(findings@)),
                text_dicts(out@) == all.take(i as int),
            decreases findings.len() - i,
        {
            let f = &findings[i];
            let ghost before = out@;
            let mut d: Vec<TextEntry> = Vec::new();
            d.push(TextEntry { key: "severity", value: f.severity.label().to_owned() });
            d.push(TextEntry { key: "check", value: f.check.to_owned() });
            d.push(TextEntry { key: "message", value: f.message.clone() });
            match &f.hint {
                Some(h) => {
                    d.push(TextEntry { key: "hint", value: h.clone() });
                },
                None => {},
            }
            proof {
                assert(text_dict(d@) =~= finding_dict(f@));
                assert(finding_views(findings@)[i as int] == f@);
                assert(all.take(i + 1) =~= all.take(i as int).push(text_dict(d@)));
            }
            out.push(d);
            assert(text_dicts(out@) =~= text_dicts(before).push(text_dict(d@)));
            i = i + 1;
        }
        assert(all.take(i as int) =~= all);
        self.put("findings", WireValue::Dicts(out));
    }
}

/// A finding as a dictionary.
pub open spec fn finding_dict(f: FindingView) -> TextDict {
    seq![
        ("severity"@, severity_label(f.severity)),
        ("check"@, f.check),
        ("message"@, f.message),
    ] + (match f.hint {
        Some(h) => seq![("hint"@, h)],
        None => Seq::empty(),
    })
}

/// Some findings as dictionaries.
pub open spec fn finding_dicts(v: Seq<FindingView>) -> Seq<TextDict> {
    Seq::new(v.len(), |i: int| finding_dict(v[i]))
}

/// A count that fits the bus: the largest where it is larger.
pub open spec fn clamped(n: usize) -> u32 {
    if n <= u32::MAX {
        n as u32
    } else {
        u32::MAX
    }
}

/// A count that fits the bus.
pub fn to_u32(n: usize) -> (r: u32)
    ensures
        r == clamped(n),
{
    if n <= u32::MAX as usize {
        n as u32
    } else {
        u32::MAX
    }
}

/// A retention policy as a dictionary.
pub open spec fn retain_dict(r: RetainConfig) -> Seq<(Seq<char>, WireView)> {
    seq![
        ("last"@, WireView::Count(clamped(r.last))),
        ("hourly"@, WireView::Count(clamped(r.hourly))),
        ("daily"@, WireView::Count(clamped(r.daily))),
        ("weekly"@, WireView::Count(clamped(r.weekly))),
        ("monthly"@, WireView::Count(clamped(r.monthly))),
        ("yearly"@, WireView::Count(clamped(r.yearly))),
    ]
}

/// A retention policy as a dictionary.
pub fn retain_to_dict(r: &RetainConfig) -> (d: Dict)
    ensures
        d@ == retain_dict(*r),
{
    let mut d = Dict::new();
    d.insert_u32("last", to_u32(r.last));
    d.insert_u32("hourly", to_u32(r.hourly));
    d.insert_u32("daily", to_u32(r.daily));
    d.insert_u32("weekly", to_u32(r.weekly));
    d.insert_u32("monthly", to_u32(r.monthly));
    d.insert_u32("yearly", to_u32(r.yearly));
    assert(d@ =~= retain_dict(*r));
    d
}

/// A strain as it goes over the bus. The name shown is empty where none is
/// set.
#[derive(Debug)]
pub struct StrainTuple {
    pub name: String,
    pub subvolumes: Vec<String>,
    pub efi: bool,
    pub retain: Dict,
    pub display_name: String,
}

/// Whether `t` is the strain `name` with the configuration `s`.
pub open spec fn is_strain_tuple(t: StrainTuple, name: Seq<char>, s: StrainView) -> bool {
    &&& t.name@ == name
    &&& views(t.subvolumes@) == s.subvolumes
    &&& t.efi == s.efi
    &&& t.retain@ == retain_dict(s.retain)
    &&& t.display_name@ == match s.display_name {
        Some(d) => d,
        None => Seq::empty(),
    }
}

/// A strain as it goes over the bus.
pub fn strain_to_tuple(name: &str, cfg: &StrainConfig) -> (r: StrainTuple)
    ensures
        is_strain_tuple(r, name@, cfg@),
{
    let display_name: String = match &cfg.display_name {
        Some(d) => d.clone(),
        None => String::new(),
    };
    StrainTuple {
        name: name.to_owned(),
        subvolumes: clone_texts(&cfg.subvolumes),
        efi: cfg.efi,
        retain: retain_to_dict(&cfg.retain),
        display_name,
    }
}

/// When a snapshot was made, as text: the wall-clock time of its record, or
/// the time in its ID.
pub open spec fn created_text(s: InfoView) -> Option<Seq<char>> {
    if s.metadata is Some && s.metadata->0.created_at.wf() {
        Some(rfc3339(s.metadata->0.created_at, false))
    } else {
        match id_moment(s.id) {
            Some(m) => Some(rfc3339((WallTime { secs: m.secs, nanos: m.nanos, offset: 0 }), false)),
            None => None,
        }
    }
}

/// The trigger of a snapshot: that of its record, or `unknown`.
pub open spec fn trigger_text(m: Option<MetaView>) -> Seq<char> {
    match m {
        Some(v) => wire_text(v.trigger),
        None => "unknown"@,
    }
}

/// A snapshot as a dictionary. `live` is the snapshot that the live subvolume
/// was cloned from.
pub open spec fn snapshot_dict(s: InfoView, live: Option<(Seq<char>, Seq<char>)>) -> Seq<
    (Seq<char>, WireView),
> {
    seq![("id"@, WireView::Text(s.id)), ("strain"@, WireView::Text(s.strain))] + (
    match created_text(s) {
        Some(c) => seq![("created"@, WireView::Text(c))],
        None => Seq::empty(),
    }) + seq![("trigger"@, WireView::Text(trigger_text(s.metadata)))] + (if s.metadata is Some
        && s.metadata->0.message.len() > 0 {
        seq![("message"@, WireView::Text(joined(s.metadata->0.message, ", "@)))]
    } else {
        Seq::empty()
    }) + seq![("is_live_anchor"@, WireView::Flag(live == Some((s.strain, s.id))))]
}

/// A snapshot as a dictionary.
pub fn snapshot_to_dict(snap: &SnapshotInfo, live_parent: Option<&LiveParentRef>) -> (r: Dict)
    ensures
        r@ == snapshot_dict(snap@, live_view(live_parent)),
{
    let mut d = Dict::new();
    d.insert_str("id", snap.id.as_str());
    d.insert_str("strain", snap.strain.as_str());
    let of_record: Option<WallTime> = match &snap.metadata {
        Some(m) => if m.created_at.is_valid() {
            Some(m.created_at)
        } else {
            None
        },
        None => None,
    };
    let created: Option<WallTime> = match of_record {
        Some(w) => Some(w),
        None => match snap.id.created_at() {
            Some(m) => Some(WallTime { secs: m.secs, nanos: m.nanos, offset: 0 }),
            None => None,
        },
    };
    match created {
        Some(w) => {
            d.insert_str("created", format_wall_time(&w, false).as_str());
        },
        None => {},
    }
    match &snap.metadata {
        Some(m) => {
            d.insert_str("trigger", m.trigger.as_wire_str());
            if m.message.len() > 0 {
                d.insert_str("message", join_texts(&m.message, ", ").as_str());
            }
        },
        None => {
            d.insert_str("trigger", "unknown");
        },
    }
    let anchor = match live_parent {
        Some(l) => same_text(l.id.as_str(), snap.id.as_str()) && same_text(
            l.strain.as_str(),
            snap.strain.as_str(),
        ),
        None => false,
    };
    d.insert_bool("is_live_anchor", anchor);
    assert(d@ =~= snapshot_dict(snap@, live_view(live_parent)));
    d
}

/// The live parent as a dictionary; empty where it cannot be told.
pub fn live_parent_to_dict(live: Option<&LiveParentRef>) -> (r: Dict)
    ensures
        r@ == (match live {
            Some(l) => seq![
                ("strain"@, WireView::Text(l.strain@)),
                ("id"@, WireView::Text(l.id@)),
            ],
            None => Seq::empty(),
        }),
{
    let mut d = Dict::new();
    match live {
        Some(l) => {
            d.insert_str("strain", l.strain.as_str());
            d.insert_str("id", l.id.as_str());
            assert(d@ =~= seq![
                ("strain"@, WireView::Text(l.strain@)),
                ("id"@, WireView::Text(l.id@)),
            ]);
        },
        None => {},
    }
    d
}

/// A DELETE marker as a dictionary.
pub open spec fn marker_dict(t: TombstoneView) -> Seq<(Seq<char>, WireView)> {
    seq![
        ("name"@, WireView::Text(t.name)),
        ("base_subvol"@, WireView::Text(t.base_subvol)),
        ("id"@, WireView::Text(t.id)),
    ]
}

/// A DELETE marker as a dictionary.
pub fn delete_marker_to_dict(t: &Tombstone) -> (r: Dict)
    ensures
        r@ == marker_dict(t@),
{
    let mut d = Dict::new();
    d.insert_str("name", t.name.as_str());
    d.insert_str("base_subvol", t.base_subvol.as_str());
    d.insert_str("id", t.id.as_str());
    assert(d@ =~= marker_dict(t@));
    d
}

} // verus!
