//! Per-snapshot metadata sidecar files.
//!
//! A small TOML file inside the snapshot directory, named
//! `<strain>-<id>.meta.toml`, says what triggered a snapshot and carries
//! notes on it. It is keyed on strain and ID, not on a snapshot subvolume's
//! name. It is optional: a missing file means "no metadata".

use vstd::prelude::*;
use vstd::string::*;

use crate::assoc::{lemma_lookup_at, lemma_lookup_none, lookup};
use crate::backend::{has_parent, subvol_exists, FileSystemBackend, FsState};
use crate::clock::{
    format_wall_time, is_time_char, local_now, parse_wall_time, rfc3339, wall_time_of, WallTime,
};
use crate::config::{all_texts, array_texts, bool_at, count_at, texts_of};
use crate::document::{
    all_quotes_fit, get, is_plain, is_regular, is_run, lemma_entries, lemma_trees, parse_toml,
    quotes_fit, render_toml, renderable, table, table_fields, texts_quotes_fit, toml_document,
    toml_text, tree, trees, usual_depth, Toml, TomlEntry, TomlValue,
};
use crate::error::{Result, RevenantError};
use crate::path::{path_join, FsPath, PathView};
use crate::snapshot::discovery::{child_names, is_child_names};
use crate::snapshot::id::{
    id_ok, is_token, is_token_text, law_trailing_id, lemma_trailing, trailing_id, SnapshotId,
};
use crate::text::{
    before_suffix, cat3, cat4, cat5, clone_texts, dec, decimal, has_suffix, join_texts, joined,
    lemma_text_less_total, lemma_text_less_transitive, precedes, same_text, strip_suffix, text_less,
    views,
};

verus! {

pub const SCHEMA_VERSION: u32 = 1;

pub const SIDECAR_EXTENSION: &'static str = ".meta.toml";

/// What caused a snapshot to be taken.
#[derive(Debug, Clone, Copy, PartialEq, Eq, Structural)]
pub enum TriggerKind {
    Manual,
    Pacman,
    SystemdBoot,
    SystemdPeriodic,
    Restore,
    Unknown,
}

impl Default for TriggerKind {
    fn default() -> (r: TriggerKind)
        ensures
            r == TriggerKind::Unknown,
    {
        TriggerKind::Unknown
    }
}

/// The identifier of a trigger in files and on the wire.
pub open spec fn wire_text(k: TriggerKind) -> Seq<char> {
    match k {
        TriggerKind::Manual => "manual"@,
        TriggerKind::Pacman => "pacman"@,
        TriggerKind::SystemdBoot => "systemd-boot"@,
        TriggerKind::SystemdPeriodic => "systemd-periodic"@,
        TriggerKind::Restore => "restore"@,
        TriggerKind::Unknown => "unknown"@,
    }
}

/// The trigger with an identifier.
pub open spec fn trigger_named(s: Seq<char>) -> Option<TriggerKind> {
    if s == "manual"@ {
        Some(TriggerKind::Manual)
    } else if s == "pacman"@ {
        Some(TriggerKind::Pacman)
    } else if s == "systemd-boot"@ {
        Some(TriggerKind::SystemdBoot)
    } else if s == "systemd-periodic"@ {
        Some(TriggerKind::SystemdPeriodic)
    } else if s == "restore"@ {
        Some(TriggerKind::Restore)
    } else if s == "unknown"@ {
        Some(TriggerKind::Unknown)
    } else {
        None
    }
}

impl TriggerKind {
    /// Kebab-case identifier for files and machine-readable output.
    #[must_use]
    pub fn as_wire_str(&self) -> (r: &'static str)
        ensures
            r@ == wire_text(*self),
    {
        match self {
            TriggerKind::Manual => "manual",
            TriggerKind::Pacman => "pacman",
            TriggerKind::SystemdBoot => "systemd-boot",
            TriggerKind::SystemdPeriodic => "systemd-periodic",
            TriggerKind::Restore => "restore",
            TriggerKind::Unknown => "unknown",
        }
    }

    /// The trigger with the given identifier.
    pub fn from_wire_str(s: &str) -> (r: Option<TriggerKind>)
        ensures
            r == trigger_named(s@),
    {
        if same_text(s, "manual") {
            Some(TriggerKind::Manual)
        } else if same_text(s, "pacman") {
            Some(TriggerKind::Pacman)
        } else if same_text(s, "systemd-boot") {
            Some(TriggerKind::SystemdBoot)
        } else if same_text(s, "systemd-periodic") {
            Some(TriggerKind::SystemdPeriodic)
        } else if same_text(s, "restore") {
            Some(TriggerKind::Restore)
        } else if same_text(s, "unknown") {
            Some(TriggerKind::Unknown)
        } else {
            None
        }
    }
}

/// Identifiers and triggers correspond one to one.
pub proof fn law_trigger_identifiers(k: TriggerKind)
    ensures
        trigger_named(wire_text(k)) == Some(k),
{
    reveal_strlit("manual");
    reveal_strlit("pacman");
    reveal_strlit("systemd-boot");
    reveal_strlit("systemd-periodic");
    reveal_strlit("restore");
    reveal_strlit("unknown");
    assert("manual"@[0] == 'm');
    assert("pacman"@[0] == 'p');
    assert("restore"@[0] == 'r');
    assert("unknown"@[0] == 'u');
    assert("systemd-boot"@[8] == 'b');
    assert("systemd-periodic"@[8] == 'p');
    assert("systemd-boot"@[0] == 's');
    assert("systemd-periodic"@[0] == 's');
}

/// A list of notes on one line: up to three are joined, of more the first two
/// are shown and the rest counted.
pub open spec fn message_items(items: Seq<Seq<char>>) -> Option<Seq<char>> {
    if items.len() == 0 {
        None
    } else if items.len() <= 3 {
        Some(joined(items, ", "@))
    } else {
        Some(items[0] + ", "@ + items[1] + ", +"@ + dec((items.len() - 2) as nat))
    }
}

/// Join a snapshot's notes into a single line, shortening long lists.
/// Returns `None` for an empty list.
#[must_use]
pub fn format_message_items(items: &Vec<String>) -> (r: Option<String>)
    ensures
        crate::text::opt_view(r) == message_items(views(items@)),
{
    if items.len() == 0 {
        None
    } else if items.len() <= 3 {
        Some(join_texts(items, ", "))
    } else {
        let n = decimal((items.len() - 2) as u64);
        Some(cat5(items[0].as_str(), ", ", items[1].as_str(), ", +", n.as_str()))
    }
}

/// Full metadata record written alongside a snapshot.
///
/// The meaning of `message` depends on the trigger: package names for
/// `Pacman`, the unit name for the systemd triggers, the source snapshot's ID
/// for `Restore`, notes for `Manual`.
#[derive(Debug)]
pub struct SnapshotMetadata {
    /// Schema version; bumped when the on-disk format changes incompatibly.
    pub schema_version: u32,
    /// Wall-clock creation time.
    pub created_at: WallTime,
    pub trigger: TriggerKind,
    pub message: Vec<String>,
    /// Excludes the snapshot from retention and blocks its deletion.
    pub protected: bool,
}

/// A metadata record with its texts.
pub struct MetaView {
    pub schema_version: u32,
    pub created_at: WallTime,
    pub trigger: TriggerKind,
    pub message: Seq<Seq<char>>,
    pub protected: bool,
}

impl View for SnapshotMetadata {
    type V = MetaView;

    open spec fn view(&self) -> MetaView {
        MetaView {
            schema_version: self.schema_version,
            created_at: self.created_at,
            trigger: self.trigger,
            message: views(self.message@),
            protected: self.protected,
        }
    }
}

impl Clone for SnapshotMetadata {
    fn clone(&self) -> (r: Self)
        ensures
            r@ == self@,
    {
        SnapshotMetadata {
            schema_version: self.schema_version,
            created_at: self.created_at,
            trigger: self.trigger,
            message: clone_texts(&self.message),
            protected: self.protected,
        }
    }
}

/// The record of an optional record.
pub open spec fn opt_meta(o: Option<SnapshotMetadata>) -> Option<MetaView> {
    match o {
        Some(m) => Some(m@),
        None => None,
    }
}

/// Whether an optional record says that its snapshot is protected.
pub open spec fn is_protected(m: Option<MetaView>) -> bool {
    m matches Some(v) && v.protected
}

impl SnapshotMetadata {
    /// A record for a snapshot created at `created_at`.
    pub fn created(created_at: WallTime, trigger: TriggerKind, message: Vec<String>) -> (r: Self)
        ensures
            r@ == (MetaView {
                schema_version: SCHEMA_VERSION,
                created_at,
                trigger,
                message: views(message@),
                protected: false,
            }),
    {
        SnapshotMetadata {
            schema_version: SCHEMA_VERSION,
            created_at,
            trigger,
            message,
            protected: false,
        }
    }

    /// Build a metadata record for a snapshot being created now.
    #[must_use]
    pub fn new(trigger: TriggerKind, message: Vec<String>) -> (r: Self)
        ensures
            r@.schema_version == SCHEMA_VERSION,
            r@.created_at.wf(),
            r@.trigger == trigger,
            r@.message == views(message@),
            !r@.protected,
    {
        SnapshotMetadata::created(local_now(), trigger, message)
    }

    /// The record with the `protected` flag set as given.
    #[must_use]
    pub fn with_protected(self, protected: bool) -> (r: Self)
        ensures
            r@ == (MetaView { protected, ..self@ }),
    {
        SnapshotMetadata {
            schema_version: self.schema_version,
            created_at: self.created_at,
            trigger: self.trigger,
            message: self.message,
            protected,
        }
    }
}

/// Whether a value is an empty table or array.
pub open spec fn is_empty(v: Toml) -> bool {
    match v {
        Toml::Table(t) => t.len() == 0,
        Toml::Array(a) => a.len() == 0,
        _ => false,
    }
}

/// The trigger that a value gives: by its identifier, or by a table with the
/// identifier as its one key and nothing under it.
pub open spec fn decode_trigger(v: Toml) -> Option<TriggerKind> {
    match v {
        Toml::Text(s) => trigger_named(s),
        Toml::Table(t) => if t.len() == 1 && is_empty(t[0].1) {
            trigger_named(t[0].0)
        } else {
            None
        },
        _ => None,
    }
}

fn trigger_from(v: &TomlValue) -> (r: Option<TriggerKind>)
    ensures
        r == decode_trigger(tree(*v)),
{
    match v {
        TomlValue::Text(s) => TriggerKind::from_wire_str(s.as_str()),
        TomlValue::Table(t) => {
            proof {
                lemma_entries(*t, t.len() as nat);
            }
            if t.len() != 1 {
                return None;
            }
            assert(table(*t)[0] == (t[0].key@, tree(t[0].value)));
            let empty: bool = match &t[0].value {
                TomlValue::Table(u) => {
                    proof {
                        lemma_entries(*u, u.len() as nat);
                    }
                    u.len() == 0
                },
                TomlValue::Array(u) => {
                    proof {
                        lemma_trees(*u, u.len() as nat);
                    }
                    u.len() == 0
                },
                _ => false,
            };
            if empty {
                TriggerKind::from_wire_str(t[0].key.as_str())
            } else {
                None
            }
        },
        _ => None,
    }
}

/// The record that a sidecar's table gives.
pub open spec fn decode_meta(t: Seq<(Seq<char>, Toml)>) -> Option<MetaView> {
    let version = count_at(t, "schema_version"@, SCHEMA_VERSION as int, u32::MAX as int);
    let created = match lookup(t, "created_at"@) {
        Some(Toml::Text(s)) => wall_time_of(s),
        _ => None,
    };
    let trigger = match lookup(t, "trigger"@) {
        None => Some(TriggerKind::Unknown),
        Some(v) => decode_trigger(v),
    };
    let message = match lookup(t, "message"@) {
        None => Some(Seq::empty()),
        Some(Toml::Array(a)) => if all_texts(a) {
            Some(texts_of(a))
        } else {
            None
        },
        Some(_) => None,
    };
    let protected = bool_at(t, "protected"@, false);
    if version is Some && created is Some && trigger is Some && message is Some && protected
        is Some {
        Some(
            MetaView {
                schema_version: version->0 as u32,
                created_at: created->0,
                trigger: trigger->0,
                message: message->0,
                protected: protected->0,
            },
        )
    } else {
        None
    }
}

/// The record that a sidecar's text gives, if it is well-formed.
pub open spec fn sidecar_record(text: Seq<char>) -> Option<MetaView> {
    match toml_document(text) {
        Ok(t) => decode_meta(t),
        Err(_) => None,
    }
}

/// The record that a sidecar's table gives.
pub fn record_from(t: &Vec<TomlEntry>) -> (r: Option<SnapshotMetadata>)
    ensures
        opt_meta(r) == decode_meta(table(*t)),
        r matches Some(m) ==> m.created_at.wf() && m.created_at.offset % 60 == 0,
{
    let t = &table_fields(t);
    let schema_version: u32 = match get(t, "schema_version") {
        None => SCHEMA_VERSION,
        Some(v) => match v {
            TomlValue::Integer(i) => {
                if *i >= 0 && *i <= u32::MAX as i64 {
                    *i as u32
                } else {
                    return None;
                }
            },
            _ => {
                return None;
            },
        },
    };
    let created_at: WallTime = match get(t, "created_at") {
        Some(v) => match v {
            TomlValue::Text(s) => match parse_wall_time(s.as_str()) {
                Some(w) => w,
                None => {
                    return None;
                },
            },
            _ => {
                return None;
            },
        },
        None => {
            return None;
        },
    };
    let trigger: TriggerKind = match get(t, "trigger") {
        None => TriggerKind::Unknown,
        Some(v) => match trigger_from(v) {
            Some(k) => k,
            None => {
                return None;
            },
        },
    };
    let message: Vec<String> = match get(t, "message") {
        None => {
            let v: Vec<String> = Vec::new();
            assert(views(v@) =~= Seq::empty());
            v
        },
        Some(v) => match v {
            TomlValue::Array(a) => match array_texts(a) {
                Some(x) => x,
                None => {
                    return None;
                },
            },
            _ => {
                return None;
            },
        },
    };
    let protected: bool = match get(t, "protected") {
        None => false,
        Some(v) => match v {
            TomlValue::Boolean(b) => *b,
            _ => {
                return None;
            },
        },
    };
    Some(SnapshotMetadata { schema_version, created_at, trigger, message, protected })
}

/// The table written for a record: notes and protection only where there are
/// any.
pub open spec fn encode_meta(m: MetaView) -> Seq<(Seq<char>, Toml)> {
    let base = seq![
        ("schema_version"@, Toml::Integer(m.schema_version as int)),
        ("created_at"@, Toml::Text(rfc3339(m.created_at, true))),
        ("trigger"@, Toml::Text(wire_text(m.trigger))),
    ];
    let notes = if m.message.len() == 0 {
        base
    } else {
        base.push(("message"@, Toml::Array(m.message.map_values(|s: Seq<char>| Toml::Text(s)))))
    };
    if m.protected {
        notes.push(("protected"@, Toml::Boolean(true)))
    } else {
        notes
    }
}

fn text_values(v: &Vec<String>) -> (r: Vec<TomlValue>)
    ensures
        trees(r, r.len() as nat) == views(v@).map_values(|s: Seq<char>| Toml::Text(s)),
{
    let mut out: Vec<TomlValue> = Vec::new();
    let mut i: usize = 0;
    while i < v.len()
        invariant
            i <= v.len(),
            out.len() == i,
            forall|j: int| 0 <= j < i ==> tree(#[trigger] out[j]) == Toml::Text(v[j]@),
        decreases v.len() - i,
    {
        out.push(TomlValue::Text(v[i].clone()));
        i = i + 1;
    }
    proof {
        lemma_trees(out, out.len() as nat);
        assert(trees(out, out.len() as nat) =~= views(v@).map_values(
            |s: Seq<char>| Toml::Text(s),
        ));
    }
    out
}

fn record_table(m: &SnapshotMetadata) -> (t: Vec<TomlEntry>)
    requires
        m.created_at.wf(),
    ensures
        table(t) == encode_meta(m@),
        m.created_at.offset % 60 == 0 ==> wall_time_of(rfc3339(m.created_at, true)) == Some(
            m.created_at,
        ),
        m.created_at.readable() ==> wall_time_of(rfc3339(m.created_at, true)) is Some,
        quotes_fit(rfc3339(m.created_at, true)),
{
    let mut t: Vec<TomlEntry> = Vec::new();
    t.push(
        TomlEntry {
            key: "schema_version".to_owned(),
            value: TomlValue::Integer(m.schema_version as i64),
        },
    );
    t.push(
        TomlEntry {
            key: "created_at".to_owned(),
            value: TomlValue::Text(format_wall_time(&m.created_at, true)),
        },
    );
    t.push(
        TomlEntry {
            key: "trigger".to_owned(),
            value: TomlValue::Text(m.trigger.as_wire_str().to_owned()),
        },
    );
    if m.message.len() > 0 {
        t.push(
            TomlEntry {
                key: "message".to_owned(),
                value: TomlValue::Array(text_values(&m.message)),
            },
        );
    }
    if m.protected {
        t.push(TomlEntry { key: "protected".to_owned(), value: TomlValue::Boolean(true) });
    }
    proof {
        lemma_entries(t, t.len() as nat);
        assert(table(t) =~= encode_meta(m@));
        let w = rfc3339(m.created_at, true);
        assert forall|i: int| !#[trigger] is_run(w, '"', i) by {
            if is_run(w, '"', i) {
                assert(is_time_char(w[i]));
            }
        }
        assert forall|i: int| !#[trigger] is_run(w, '\'', i) by {
            if is_run(w, '\'', i) {
                assert(is_time_char(w[i]));
            }
        }
    }
    t
}

proof fn lemma_keys()
    ensures
        is_token("schema_version"@),
        is_token("created_at"@),
        is_token("trigger"@),
        is_token("message"@),
        is_token("protected"@),
        "schema_version"@[0] == 's',
        "created_at"@[0] == 'c',
        "trigger"@[0] == 't',
        "message"@[0] == 'm',
        "protected"@[0] == 'p',
{
    reveal_strlit("schema_version");
    reveal_strlit("created_at");
    reveal_strlit("trigger");
    reveal_strlit("message");
    reveal_strlit("protected");
}

proof fn lemma_encode_regular(m: MetaView)
    ensures
        is_regular(encode_meta(m), usual_depth()),
{
    let t = encode_meta(m);
    lemma_keys();
    assert forall|i: int| 0 <= i < t.len() implies is_token((#[trigger] t[i]).0) && is_plain(
        t[i].1,
    ) by {
        if t[i].1 is Array {
            let a = t[i].1->Array_0;
            assert forall|j: int| 0 <= j < a.len() implies (#[trigger] a[j]) is Text by {
                assert(a[j] == Toml::Text(m.message[j]));
            }
        }
    }
    assert forall|i: int, j: int| 0 <= i < j < t.len() implies (#[trigger] t[i]).0 != (
    #[trigger] t[j]).0 by {
        assert(t[i].0[0] != t[j].0[0]);
    }
}

proof fn lemma_encode_renderable(m: MetaView)
    requires
        quotes_fit(rfc3339(m.created_at, true)),
        all_quotes_fit(m.message),
    ensures
        renderable(Toml::Table(encode_meta(m))),
{
    let t = encode_meta(m);
    assert(quotes_fit(wire_text(m.trigger))) by {
        reveal_strlit("manual");
        reveal_strlit("pacman");
        reveal_strlit("systemd-boot");
        reveal_strlit("systemd-periodic");
        reveal_strlit("restore");
        reveal_strlit("unknown");
    }
    assert forall|i: int| 0 <= i < t.len() implies renderable((#[trigger] t[i]).1) by {
        if t[i].1 is Array {
            let a = t[i].1->Array_0;
            assert forall|j: int| 0 <= j < a.len() implies renderable(#[trigger] a[j]) by {
                assert(a[j] == Toml::Text(m.message[j]));
                assert(quotes_fit(m.message[j]));
            }
        }
    }
}

/// Decoding undoes encoding, but for the time, which is as the text gives it.
pub proof fn lemma_decode_encode(m: MetaView)
    requires
        wall_time_of(rfc3339(m.created_at, true)) is Some,
    ensures
        decode_meta(encode_meta(m)) == Some(
            (MetaView { created_at: wall_time_of(rfc3339(m.created_at, true))->0, ..m }),
        ),
{
    let t = encode_meta(m);
    lemma_keys();
    law_trigger_identifiers(m.trigger);
    lemma_lookup_at(t, "schema_version"@, 0);
    lemma_lookup_at(t, "created_at"@, 1);
    lemma_lookup_at(t, "trigger"@, 2);
    if m.message.len() > 0 {
        lemma_lookup_at(t, "message"@, 3);
        let a = m.message.map_values(|s: Seq<char>| Toml::Text(s));
        assert(texts_of(a) =~= m.message);
    } else {
        lemma_lookup_none(t, "message"@);
        assert(m.message =~= Seq::empty());
    }
    if m.protected {
        lemma_lookup_at(t, "protected"@, t.len() - 1);
    } else {
        lemma_lookup_none(t, "protected"@);
    }
}

/// Path name of the sidecar of a strain's snapshot.
pub open spec fn sidecar_name(strain: Seq<char>, id: Seq<char>) -> Seq<char> {
    strain + "-"@ + id + SIDECAR_EXTENSION@
}

/// Path of the sidecar of a strain's snapshot.
pub open spec fn sidecar_at(snap_dir: PathView, strain: Seq<char>, id: Seq<char>) -> PathView {
    path_join(snap_dir, sidecar_name(strain, id))
}

/// Path of the sidecar file for a given (strain, id). The sidecar lives
/// inside the snapshot directory itself.
#[must_use]
pub fn sidecar_path(snap_dir: &FsPath, strain: &str, id: &str) -> (r: FsPath)
    ensures
        r@ == sidecar_at(snap_dir@, strain@, id@),
{
    snap_dir.join(cat4(strain, "-", id, SIDECAR_EXTENSION).as_str())
}

/// The strain and ID in the name of a sidecar.
pub open spec fn sidecar_parts(name: Seq<char>) -> Option<(Seq<char>, Seq<char>)> {
    match before_suffix(name, SIDECAR_EXTENSION@) {
        Some(stem) => match trailing_id(stem) {
            Some((strain, id)) => if is_token(strain) {
                Some((strain, id))
            } else {
                None
            },
            None => None,
        },
        None => None,
    }
}

/// Parse a sidecar file name of the form `<strain>-<id>.meta.toml` into its
/// `(strain, id)` components. Returns `None` if the name is shaped otherwise.
#[must_use]
pub fn parse_sidecar_name(name: &str) -> (r: Option<(String, String)>)
    ensures
        match r {
            Some((strain, id)) => sidecar_parts(name@) == Some((strain@, id@)),
            None => sidecar_parts(name@) is None,
        },
{
    match strip_suffix(name, SIDECAR_EXTENSION) {
        Some(stem) => match SnapshotId::split_trailing(stem) {
            Some((strain, id)) => {
                if is_token_text(strain) {
                    Some((strain.to_owned(), id.as_str().to_owned()))
                } else {
                    None
                }
            },
            None => None,
        },
        None => None,
    }
}

/// Parsing undoes naming: the name of a sidecar gives back its strain and ID,
/// and no other text gives them.
pub proof fn law_sidecar_name_round_trip(name: Seq<char>, strain: Seq<char>, id: Seq<char>)
    ensures
        sidecar_parts(name) == Some((strain, id)) <==> is_token(strain) && id_ok(id) && name
            == sidecar_name(strain, id),
{
    reveal_strlit("-");
    assert("-"@ =~= seq!['-']);
    let stem = strain + "-"@ + id;
    let n = name.len() as int;
    let k = SIDECAR_EXTENSION@.len() as int;
    if is_token(strain) && id_ok(id) && name == sidecar_name(strain, id) {
        assert(name.subrange(n - k, n) =~= SIDECAR_EXTENSION@);
        assert(name.subrange(0, n - k) =~= stem);
        lemma_trailing(strain, id);
    }
    if sidecar_parts(name) == Some((strain, id)) {
        law_trailing_id(name.subrange(0, n - k), strain, id);
        assert(name =~= name.subrange(0, n - k) + name.subrange(n - k, n));
        assert(name =~= sidecar_name(strain, id));
    }
}

/// What reading a sidecar found.
pub open spec fn sidecar_in(st: FsState, path: PathView) -> Option<MetaView> {
    if st.files.contains_key(path) {
        sidecar_record(st.files[path])
    } else {
        None
    }
}

/// Read a sidecar, returning `Ok(None)` if the file is absent. A malformed
/// file is an error; a higher schema version is accepted.
pub fn read<B: FileSystemBackend>(backend: &B, path: &FsPath) -> (r: Result<
    Option<SnapshotMetadata>,
>)
    ensures
        match r {
            Ok(Some(m)) => backend.state().files.contains_key(path@) && sidecar_record(
                backend.state().files[path@],
            ) == Some(m@),
            Ok(None) => !backend.state().files.contains_key(path@),
            Err(e) => backend.reliable() ==> (backend.state().files.contains_key(path@)
                && sidecar_record(backend.state().files[path@]) is None && e@ is Other),
        },
        r matches Ok(Some(m)) ==> m.created_at.wf() && m.created_at.offset % 60 == 0,
{
    match backend.read_file(path) {
        Ok(found) => match found {
            Some(text) => match parse_toml(text.as_str()) {
                Ok(t) => match record_from(&t) {
                    Some(m) => Ok(Some(m)),
                    None => Err(
                        RevenantError::Other(
                            cat3(
                                "failed to parse snapshot metadata at ",
                                path.display().as_str(),
                                ": missing or invalid field",
                            ),
                        ),
                    ),
                },
                Err(m) => Err(
                    RevenantError::Other(
                        cat4(
                            "failed to parse snapshot metadata at ",
                            path.display().as_str(),
                            ": ",
                            m.as_str(),
                        ),
                    ),
                ),
            },
            None => Ok(None),
        },
        Err(e) => Err(e),
    }
}

/// Whether reading gives back a record that was written: its offset from UTC is
/// in whole minutes.
pub open spec fn storable(m: MetaView) -> bool {
    m.created_at.offset % 60 == 0
}

/// Write a sidecar, all of it or nothing.
///
/// Reading it gives the record back where the record is storable, and all but
/// the time of it where the time can be read. Notes with too long a run of one
/// quote are refused.
pub fn write<B: FileSystemBackend>(
    backend: &mut B,
    path: &FsPath,
    meta: &SnapshotMetadata,
) -> (r: Result<()>)
    requires
        meta.created_at.wf(),
    ensures
        final(backend).reliable() == old(backend).reliable(),
        match r {
            Ok(_) => all_quotes_fit(meta@.message) && toml_text(encode_meta(meta@)) is Ok
                && final(backend).state() == (FsState {
                files: old(backend).state().files.insert(
                    path@,
                    toml_text(encode_meta(meta@))->Ok_0,
                ),
                ..old(backend).state()
            }) && (storable(meta@) ==> sidecar_in(final(backend).state(), path@) == Some(meta@))
                && (meta@.created_at.readable() ==> (sidecar_in(
                final(backend).state(),
                path@,
            ) matches Some(v) && v == (MetaView { created_at: v.created_at, ..meta@ }))),
            Err(e) => final(backend).state() == old(backend).state(),
        },
        !all_quotes_fit(meta@.message) ==> (r matches Err(e) && e@ is Other),
        old(backend).reliable() && all_quotes_fit(meta@.message) && has_parent(
            old(backend).state(),
            old(backend).directories(),
            path@,
        ) ==> r is Ok,
{
    if !texts_quotes_fit(&meta.message) {
        return Err(
            RevenantError::Other(
                cat3(
                    "failed to serialize snapshot metadata for ",
                    path.display().as_str(),
                    ": too many quotes in a row",
                ),
            ),
        );
    }
    let t = record_table(meta);
    proof {
        lemma_encode_regular(meta@);
        lemma_encode_renderable(meta@);
        if storable(meta@) || meta@.created_at.readable() {
            lemma_decode_encode(meta@);
        }
    }
    match render_toml(&t) {
        Ok(text) => backend.write_file(path, text.as_str()),
        Err(m) => Err(
            RevenantError::Other(
                cat4(
                    "failed to serialize snapshot metadata for ",
                    path.display().as_str(),
                    ": ",
                    m.as_str(),
                ),
            ),
        ),
    }
}

/// Remove a sidecar if it exists. A missing file is not an error.
pub fn remove<B: FileSystemBackend>(backend: &mut B, path: &FsPath) -> (r: Result<()>)
    ensures
        final(backend).reliable() == old(backend).reliable(),
        r is Ok ==> final(backend).state() == (FsState {
            files: old(backend).state().files.remove(path@),
            ..old(backend).state()
        }),
        r is Err ==> final(backend).state() == old(backend).state(),
        old(backend).reliable() ==> r is Ok,
{
    match backend.remove_file(path) {
        Ok(_) => Ok(()),
        Err(e) => Err(e),
    }
}

/// A sidecar file whose companion snapshot subvolume no longer exists.
#[derive(Debug)]
pub struct OrphanedSidecar {
    pub path: FsPath,
    pub name: String,
}

/// The end of the names of the subvolumes of a strain's snapshot.
pub open spec fn snapshot_suffix(strain: Seq<char>, id: Seq<char>) -> Seq<char> {
    "-"@ + strain + "-"@ + id
}

/// Whether the sidecar `name` in `dir` has no companion: no subvolume there is
/// named like a part of its snapshot.
pub open spec fn is_orphan(st: FsState, dir: PathView, name: Seq<char>) -> bool {
    &&& st.files.contains_key(dir.push(name))
    &&& sidecar_parts(name) is Some
    &&& forall|n: Seq<char>| #[trigger]
        st.subvols.contains_key(dir.push(n)) ==> !snapshot_suffix(
            sidecar_parts(name)->Some_0.0,
            sidecar_parts(name)->Some_0.1,
        ).is_suffix_of(n)
}

/// The names of some orphaned sidecars.
pub open spec fn orphan_names(v: Seq<OrphanedSidecar>) -> Seq<Seq<char>> {
    Seq::new(v.len(), |i: int| v[i].name@)
}

/// Whether texts are in strictly ascending order.
pub open spec fn strictly_ascending(v: Seq<Seq<char>>) -> bool {
    forall|i: int, j: int| 0 <= i < j < v.len() ==> text_less(#[trigger] v[i], #[trigger] v[j])
}

/// Whether the sidecars `v` are orphans in `dir`, in order and with their
/// paths.
pub open spec fn are_orphans(st: FsState, dir: PathView, v: Seq<OrphanedSidecar>) -> bool {
    &&& strictly_ascending(orphan_names(v))
    &&& forall|i: int|
        0 <= i < v.len() ==> is_orphan(st, dir, (#[trigger] v[i]).name@) && v[i].path@ == dir.push(
            v[i].name@,
        )
}

fn has_companion(names: &Vec<String>, suffix: &str) -> (r: bool)
    ensures
        r == exists|i: int|
            0 <= i < names@.len() && suffix@.is_suffix_of((#[trigger] names@[i])@),
{
    let mut i: usize = 0;
    while i < names.len()
        invariant
            i <= names.len(),
            forall|j: int| 0 <= j < i ==> !suffix@.is_suffix_of((#[trigger] names@[j])@),
        decreases names.len() - i,
    {
        if has_suffix(names[i].as_str(), suffix) {
            assert(suffix@.is_suffix_of(names@[i as int]@));
            return true;
        }
        i = i + 1;
    }
    false
}

proof fn lemma_trailing_nonempty(s: Seq<char>)
    requires
        trailing_id(s) is Some,
    ensures
        trailing_id(s)->Some_0.1.len() > 0,
{
    crate::snapshot::id::lemma_trailing_id_nonempty(s);
}

proof fn lemma_suffix_long(name: Seq<char>, n: Seq<char>)
    requires
        sidecar_parts(name) is Some,
        n == "/"@ || n == ".."@,
    ensures
        !snapshot_suffix(sidecar_parts(name)->Some_0.0, sidecar_parts(name)->Some_0.1).is_suffix_of(n),
{
    reveal_strlit("-");
    reveal_strlit("/");
    reveal_strlit("..");
    let stem = before_suffix(name, SIDECAR_EXTENSION@)->0;
    lemma_trailing_nonempty(stem);
}

fn insert_orphan(v: &mut Vec<OrphanedSidecar>, item: OrphanedSidecar)
    requires
        strictly_ascending(orphan_names(old(v)@)),
        !orphan_names(old(v)@).contains(item.name@),
    ensures
        strictly_ascending(orphan_names(final(v)@)),
        exists|k: int| 0 <= k <= old(v)@.len() && final(v)@ == #[trigger] old(v)@.insert(k, item),
{
    let mut k: usize = 0;
    let ghost before = orphan_names(v@);
    while k < v.len() && precedes(v[k].name.as_str(), item.name.as_str())
        invariant
            k <= v.len(),
            before == orphan_names(v@),
            forall|j: int| 0 <= j < k ==> text_less(#[trigger] before[j], item.name@),
        decreases v.len() - k,
    {
        assert(before[k as int] == v@[k as int].name@);
        k = k + 1;
    }
    proof {
        let now = before.insert(k as int, item.name@);
        assert(orphan_names(v@.insert(k as int, item)) =~= now);
        if k < v.len() {
            assert(before[k as int] == v@[k as int].name@);
            lemma_text_less_total(before[k as int], item.name@);
            assert(before[k as int] != item.name@);
        }
        assert forall|i: int, j: int| 0 <= i < j < now.len() implies text_less(
            #[trigger] now[i],
            #[trigger] now[j],
        ) by {
            if i < k && j > k {
                assert(text_less(before[i], before[j - 1]));
            } else if i == k {
                if j - 1 > k {
                    lemma_text_less_transitive(item.name@, before[k as int], before[j - 1]);
                }
            } else if i > k {
                assert(text_less(before[i - 1], before[j - 1]));
            }
        }
    }
    v.insert(k, item);
}

/// Find sidecar files in `snap_dir` whose matching snapshot subvolume (any
/// whose name ends in `-<strain>-<id>`) is absent, sorted by file name. There
/// are none where `snap_dir` does not exist.
pub fn find_orphaned_sidecars<B: FileSystemBackend>(snap_dir: &FsPath, backend: &B) -> (r: Result<
    Vec<OrphanedSidecar>,
>)
    ensures
        r matches Ok(v) ==> are_orphans(backend.state(), snap_dir@, v@),
        backend.reliable() ==> r is Ok,
        backend.reliable() && !backend.state().subvols.contains_key(snap_dir@) ==> r->Ok_0@.len()
            == 0,
        backend.reliable() && backend.state().subvols.contains_key(snap_dir@) ==> forall|
            n: Seq<char>,
        | #[trigger]
            is_orphan(backend.state(), snap_dir@, n) ==> orphan_names(r->Ok_0@).contains(n),
{
    let ghost st = backend.state();
    let mut out: Vec<OrphanedSidecar> = Vec::new();
    if !subvol_exists(backend, snap_dir) {
        return Ok(out);
    }
    let files = match backend.list_files(snap_dir) {
        Ok(v) => v,
        Err(e) => {
            return Err(e);
        },
    };
    let listed = match backend.list_subvolumes(snap_dir) {
        Ok(v) => v,
        Err(e) => {
            return Err(e);
        },
    };
    let names = child_names(&listed, Ghost(st), Ghost(snap_dir@));
    let mut i: usize = 0;
    while i < files.len()
        invariant
            i <= files.len(),
            st == backend.state(),
            is_child_names(st, snap_dir@, views(names@)),
            views(files@).no_duplicates(),
            forall|n: Seq<char>|
                views(files@).contains(n) <==> #[trigger] st.files.contains_key(
                    snap_dir@.push(n),
                ),
            are_orphans(st, snap_dir@, out@),
            forall|k: int|
                0 <= k < out.len() ==> exists|j: int|
                    0 <= j < i && views(files@)[j] == (#[trigger] out[k]).name@,
            forall|j: int|
                0 <= j < i && is_orphan(st, snap_dir@, #[trigger] views(files@)[j])
                    ==> orphan_names(out@).contains(views(files@)[j]),
        decreases files.len() - i,
    {
        let name = files[i].as_str();
        let ghost before = out@;
        let ghost mut added = false;
        proof {
            assert(views(files@)[i as int] == name@);
            assert(views(files@).contains(name@));
            assert(st.files.contains_key(snap_dir@.push(name@)));
        }
        match parse_sidecar_name(name) {
            Some((strain, id)) => {
                let suffix = cat4("-", strain.as_str(), "-", id.as_str());
                let paired: bool = has_companion(&names, suffix.as_str());
                proof {
                    if paired {
                        let k = choose|k: int|
                            0 <= k < names@.len() && suffix@.is_suffix_of(
                                (#[trigger] names@[k])@,
                            );
                        assert(views(names@)[k] == names@[k]@);
                        assert(views(names@).contains(names@[k]@));
                        assert(st.subvols.contains_key(snap_dir@.push(names@[k]@)));
                        assert(!is_orphan(st, snap_dir@, name@));
                    } else {
                        assert forall|n: Seq<char>| #[trigger]
                            st.subvols.contains_key(snap_dir@.push(n)) implies !snapshot_suffix(
                            strain@,
                            id@,
                        ).is_suffix_of(n) by {
                            if n == "/"@ || n == ".."@ {
                                lemma_suffix_long(name@, n);
                            } else {
                                assert(views(names@).contains(n));
                                let k = choose|k: int|
                                    0 <= k < views(names@).len() && views(names@)[k] == n;
                                assert(names@[k]@ == n);
                            }
                        }
                        assert(is_orphan(st, snap_dir@, name@));
                    }
                }
                if !paired {
                    let item = OrphanedSidecar {
                        path: snap_dir.child(name),
                        name: files[i].clone(),
                    };
                    proof {
                        assert forall|k: int| 0 <= k < out.len() implies orphan_names(out@)[k]
                            != name@ by {
                            let j = choose|j: int|
                                0 <= j < i && views(files@)[j] == (#[trigger] out[k]).name@;
                            assert(views(files@)[j] != views(files@)[i as int]);
                        }
                    }
                    insert_orphan(&mut out, item);
                    proof {
                        added = true;
                        let k = choose|k: int|
                            0 <= k <= before.len() && out@ == #[trigger] before.insert(k, item);
                        assert(out@[k] == item);
                        assert(orphan_names(out@)[k] == name@);
                        assert forall|x: int| 0 <= x < before.len() implies exists|y: int|
                            0 <= y < out@.len() && (#[trigger] before[x]) == out@[y] by {
                            if x < k {
                                assert(out@[x] == before[x]);
                            } else {
                                assert(out@[x + 1] == before[x]);
                            }
                        }
                        assert forall|y: int| 0 <= y < out@.len() implies (#[trigger] out@[y])
                            == item || exists|x: int| 0 <= x < before.len() && before[x]
                            == out@[y] by {
                            if y < k {
                                assert(before[y] == out@[y]);
                            } else if y > k {
                                assert(before[y - 1] == out@[y]);
                            }
                        }
                        assert forall|y: int| 0 <= y < out@.len() implies is_orphan(
                            st,
                            snap_dir@,
                            (#[trigger] out@[y]).name@,
                        ) && out@[y].path@ == snap_dir@.push(out@[y].name@) by {
                            if out@[y] != item {
                                let x = choose|x: int| 0 <= x < before.len() && before[x] == out@[y];
                                assert(is_orphan(st, snap_dir@, before[x].name@));
                            }
                        }
                        assert forall|y: int| 0 <= y < out@.len() implies exists|j: int|
                            0 <= j < i + 1 && views(files@)[j] == (#[trigger] out@[y]).name@ by {
                            if out@[y] == item {
                                assert(views(files@)[i as int] == out@[y].name@);
                            } else {
                                let x = choose|x: int| 0 <= x < before.len() && before[x] == out@[y];
                                let j = choose|j: int|
                                    0 <= j < i && views(files@)[j] == before[x].name@;
                                assert(views(files@)[j] == out@[y].name@);
                            }
                        }
                        assert forall|j: int|
                            0 <= j < i + 1 && is_orphan(
                                st,
                                snap_dir@,
                                #[trigger] views(files@)[j],
                            ) implies orphan_names(out@).contains(views(files@)[j]) by {
                            if j < i {
                                let x = choose|x: int|
                                    0 <= x < orphan_names(before).len() && orphan_names(before)[x]
                                        == views(files@)[j];
                                let y = choose|y: int|
                                    0 <= y < out@.len() && before[x] == out@[y];
                                assert(orphan_names(out@)[y] == views(files@)[j]);
                            }
                        }
                    }
                }
            },
            None => {},
        }
        i = i + 1;
    }
    proof {
        assert forall|n: Seq<char>| #[trigger] is_orphan(st, snap_dir@, n) implies orphan_names(
            out@,
        ).contains(n) by {
            assert(views(files@).contains(n));
            let j = choose|j: int| 0 <= j < views(files@).len() && views(files@)[j] == n;
            assert(is_orphan(st, snap_dir@, views(files@)[j]));
        }
    }
    Ok(out)
}

} // verus!
