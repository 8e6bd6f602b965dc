//! System health checks.
//!
//! Each check returns findings with a severity, a stable identifier, a message
//! and perhaps a hint.

use vstd::prelude::*;
use vstd::string::*;

use crate::assoc::lookup;
use crate::backend::{
    is_fs_fault, is_nested, is_nesting, path_views, subvol_exists, FileSystemBackend, FsState,
};
use crate::cleanup::recovery::{collect_strain_subvols, strain_bases};
use crate::config::{
    config_fault, decode_config, refuses, strain_views, Config, ConfigView, DELETE_STRAIN,
};
use crate::document::toml_document;
use crate::error::{ErrorView, Result};
use crate::lines::{sort_texts, sorted_texts};
use crate::metadata::{self, is_orphan, orphan_names, strictly_ascending};
use crate::path::{lemma_within_self, path_join, path_text, within, FsPath, PathView};
use crate::snapshot::discovery::{child_names, is_child_names, strain_parts};
use crate::snapshot::id::{id_ok, parse_name, parse_snapshot_subvol_name, SnapshotId};
use crate::snapshot::info::{snap_dir_of, snapshot_dir};
use crate::text::{
    after_prefix, cat2, cat3, cat4, cat5, contains_text, lemma_text_less_irreflexive,
    lemma_text_less_transitive, opt_view, precedes, same_text, strip_prefix, text_less, views,
};

verus! {

/// Severity of a check finding.
#[derive(Debug, Clone, Copy, PartialEq, Eq, Structural)]
pub enum Severity {
    Info,
    Warning,
    Error,
}

/// The label of a severity.
pub open spec fn severity_label(s: Severity) -> Seq<char> {
    match s {
        Severity::Info => "INFO"@,
        Severity::Warning => "WARN"@,
        Severity::Error => "ERROR"@,
    }
}

impl Severity {
    /// The label of the severity.
    #[must_use]
    pub fn label(self) -> (r: &'static str)
        ensures
            r@ == severity_label(self),
    {
        match self {
            Severity::Info => "INFO",
            Severity::Warning => "WARN",
            Severity::Error => "ERROR",
        }
    }
}

/// A single observation produced by a check.
#[derive(Debug)]
pub struct Finding {
    pub severity: Severity,
    /// Stable identifier for the check that produced this finding.
    pub check: &'static str,
    pub message: String,
    pub hint: Option<String>,
}

/// A finding with its texts.
pub struct FindingView {
    pub severity: Severity,
    pub check: Seq<char>,
    pub message: Seq<char>,
    pub hint: Option<Seq<char>>,
}

impl View for Finding {
    type V = FindingView;

    open spec fn view(&self) -> FindingView {
        FindingView {
            severity: self.severity,
            check: self.check@,
            message: self.message@,
            hint: opt_view(self.hint),
        }
    }
}

/// The findings of a list.
pub open spec fn finding_views(v: Seq<Finding>) -> Seq<FindingView> {
    Seq::new(v.len(), |i: int| v[i]@)
}

impl Finding {
    /// An informational finding.
    #[must_use]
    pub fn info(check: &'static str, message: String) -> (r: Self)
        ensures
            r@ == (FindingView {
                severity: Severity::Info,
                check: check@,
                message: message@,
                hint: None,
            }),
    {
        Finding { severity: Severity::Info, check, message, hint: None }
    }

    /// A warning.
    #[must_use]
    pub fn warning(check: &'static str, message: String) -> (r: Self)
        ensures
            r@ == (FindingView {
                severity: Severity::Warning,
                check: check@,
                message: message@,
                hint: None,
            }),
    {
        Finding { severity: Severity::Warning, check, message, hint: None }
    }

    /// An error.
    #[must_use]
    pub fn error(check: &'static str, message: String) -> (r: Self)
        ensures
            r@ == (FindingView {
                severity: Severity::Error,
                check: check@,
                message: message@,
                hint: None,
            }),
    {
        Finding { severity: Severity::Error, check, message, hint: None }
    }

    /// The finding with a hint.
    #[must_use]
    pub fn with_hint(self, hint: String) -> (r: Self)
        ensures
            r@ == (FindingView { hint: Some(hint@), ..self@ }),
    {
        Finding {
            severity: self.severity,
            check: self.check,
            message: self.message,
            hint: Some(hint),
        }
    }
}

/// Result of parsing the name of a snapshot subvolume.
#[derive(Debug, PartialEq, Eq)]
pub struct ParsedSnapshotName {
    pub subvol: String,
    pub strain: String,
    pub id: SnapshotId,
}

/// Try to parse a subvolume entry name as `{subvol}-{strain}-{id}`. The
/// rightmost dash before the ID separates subvolume and strain.
#[must_use]
pub fn parse_snapshot_name(name: &str) -> (r: Option<ParsedSnapshotName>)
    ensures
        match r {
            Some(p) => parse_name(name@) == Some((p.subvol@, p.strain@, p.id@)),
            None => parse_name(name@) is None,
        },
{
    match parse_snapshot_subvol_name(name) {
        Some((subvol, strain, id)) => Some(ParsedSnapshotName { subvol, strain, id }),
        None => None,
    }
}

/// The finding for a missing configuration file.
pub open spec fn config_missing(path: Seq<char>) -> FindingView {
    FindingView {
        severity: Severity::Error,
        check: "config-missing"@,
        message: "configuration file not found: "@ + path,
        hint: Some("run `revenantctl init` to generate a configuration file"@),
    }
}

/// The finding for a configuration file that does not load.
pub open spec fn config_invalid(path: Seq<char>, e: ErrorView) -> FindingView {
    FindingView {
        severity: Severity::Error,
        check: "config-invalid"@,
        message: "failed to load "@ + path + ": "@ + e.text(),
        hint: Some(
            "fix the configuration, or remove the file and re-run `revenantctl init` to regenerate it from system detection"@,
        ),
    }
}

/// The findings on a configuration file with the given outcome of loading it.
pub fn config_findings(path: &str, loaded: &Result<Config>) -> (r: Vec<Finding>)
    ensures
        match loaded {
            Ok(_) => r@.len() == 0,
            Err(e) => finding_views(r@) == seq![config_invalid(path@, e@)],
        },
{
    let mut out: Vec<Finding> = Vec::new();
    match loaded {
        Ok(_) => {},
        Err(e) => {
            let f = Finding::error(
                "config-invalid",
                cat4("failed to load ", path, ": ", e.message().as_str()),
            ).with_hint(
                "fix the configuration, or remove the file and re-run `revenantctl init` to regenerate it from system detection".to_owned(),
            );
            out.push(f);
            assert(finding_views(out@) =~= seq![config_invalid(path@, e@)]);
        },
    }
    out
}

/// Whether `e` may be why a configuration file cannot be loaded: it cannot be
/// read, or its text is refused.
pub open spec fn unloadable(st: FsState, path: PathView, e: ErrorView) -> bool {
    is_fs_fault(e) || (st.files.contains_key(path) && refuses(st.files[path], e))
}

/// Check whether the configuration file exists and parses successfully.
#[must_use]
pub fn check_config_file<B: FileSystemBackend>(backend: &B, path: &FsPath) -> (r: Vec<Finding>)
    ensures
        backend.reliable() && !backend.state().files.contains_key(path@) ==> finding_views(r@)
            == seq![config_missing(path_text(path@))],
        r@.len() == 0 ==> backend.state().files.contains_key(path@) && toml_document(
            backend.state().files[path@],
        ) is Ok && (decode_config(toml_document(backend.state().files[path@])->Ok_0) matches Some(v)
            && config_fault(v) is None),
        backend.reliable() && backend.state().files.contains_key(path@) && toml_document(
            backend.state().files[path@],
        ) is Ok && (decode_config(toml_document(backend.state().files[path@])->Ok_0) matches Some(v)
            && config_fault(v) is None) ==> r@.len() == 0,
        r@.len() <= 1,
        r@.len() == 1 ==> r@[0].severity == Severity::Error,
        r@.len() == 1 ==> (!backend.state().files.contains_key(path@) && finding_views(r@) == seq![
            config_missing(path_text(path@)),
        ]) || exists|e: ErrorView| #[trigger]
            unloadable(backend.state(), path@, e) && finding_views(r@) == seq![
                config_invalid(path_text(path@), e),
            ],
        backend.reliable() && backend.state().files.contains_key(path@) && r@.len() == 1
            ==> exists|e: ErrorView| #[trigger]
            refuses(backend.state().files[path@], e) && finding_views(r@) == seq![
                config_invalid(path_text(path@), e),
            ],
{
    let shown = path.display();
    match backend.read_file(path) {
        Ok(found) => match found {
            Some(text) => {
                let loaded = Config::parse(text.as_str());
                let r = config_findings(shown.as_str(), &loaded);
                proof {
                    if loaded is Err {
                        assert(refuses(text@, loaded->Err_0@));
                        assert(unloadable(backend.state(), path@, loaded->Err_0@));
                        assert(finding_views(r@).len() == 1);
                        assert(finding_views(r@)[0] == r@[0]@);
                    }
                }
                r
            },
            None => {
                let mut out: Vec<Finding> = Vec::new();
                let f = Finding::error(
                    "config-missing",
                    cat2("configuration file not found: ", shown.as_str()),
                ).with_hint(
                    "run `revenantctl init` to generate a configuration file".to_owned(),
                );
                out.push(f);
                assert(finding_views(out@) =~= seq![config_missing(path_text(path@))]);
                out
            },
        },
        Err(e) => {
            let loaded: Result<Config> = Err(e);
            let r = config_findings(shown.as_str(), &loaded);
            proof {
                assert(unloadable(backend.state(), path@, loaded->Err_0@));
                assert(finding_views(r@).len() == 1);
                assert(finding_views(r@)[0] == r@[0]@);
            }
            r
        },
    }
}

/// Whether the entry `name` is a part of a snapshot that the configuration
/// covers.
pub open spec fn is_claimed(c: ConfigView, name: Seq<char>) -> bool {
    exists|i: int, k: int| #[trigger] claims(c, i, k, name)
}

/// Whether part `k` of strain `i` covers the entry `name`.
pub open spec fn claims(c: ConfigView, i: int, k: int, name: Seq<char>) -> bool {
    &&& 0 <= i < c.strain.len()
    &&& 0 <= k < strain_parts(c, c.strain[i].1).len()
    &&& after_prefix(
        name,
        strain_parts(c, c.strain[i].1)[k] + "-"@ + c.strain[i].0 + "-"@,
    ) matches Some(rest) && id_ok(rest)
}

fn covers(part: &str, strain: &str, name: &str) -> (r: bool)
    ensures
        r == (after_prefix(name@, part@ + "-"@ + strain@ + "-"@) matches Some(rest) && id_ok(rest)),
{
    let prefix = cat4(part, "-", strain, "-");
    match strip_prefix(name, prefix.as_str()) {
        Some(rest) => SnapshotId::from_string(rest).is_ok(),
        None => false,
    }
}

fn claimed(config: &Config, name: &str) -> (r: bool)
    ensures
        r == is_claimed(config@, name@),
{
    let list = config.strain.entries();
    let ghost c = config@;
    let mut i: usize = 0;
    while i < list.len()
        invariant
            i <= list.len(),
            c == config@,
            strain_views(list@) == c.strain,
            forall|a: int, k: int| 0 <= a < i ==> !#[trigger] claims(c, a, k, name@),
        decreases list.len() - i,
    {
        let s = &list[i].config;
        let strain = list[i].name.as_str();
        let ghost parts = strain_parts(c, s@);
        proof {
            assert(c.strain[i as int] == list@[i as int]@);
        }
        let mut k: usize = 0;
        while k < s.subvolumes.len()
            invariant
                k <= s.subvolumes.len(),
                i < list.len(),
                c == config@,
                strain_views(list@) == c.strain,
                c.strain[i as int] == (strain@, s@),
                parts == strain_parts(c, s@),
                forall|j: int| 0 <= j < k ==> !#[trigger] claims(c, i as int, j, name@),
            decreases s.subvolumes.len() - k,
        {
            assert(parts[k as int] == s.subvolumes@[k as int]@);
            if covers(s.subvolumes[k].as_str(), strain, name) {
                assert(claims(c, i as int, k as int, name@));
                return true;
            }
            assert(!claims(c, i as int, k as int, name@));
            k = k + 1;
        }
        if s.efi && config.sys.efi.enabled {
            let ghost last = s.subvolumes@.len() as int;
            assert(parts[last] == config@.sys.staging_subvol);
            if covers(config.sys.efi.staging_subvol.as_str(), strain, name) {
                assert(claims(c, i as int, last, name@));
                return true;
            }
            assert(!claims(c, i as int, last, name@));
        }
        assert forall|a: int, k: int| 0 <= a < i + 1 implies !#[trigger] claims(c, a, k, name@) by {
            if a == i && claims(c, a, k, name@) {
                assert(k < parts.len());
            }
        }
        i = i + 1;
    }
    false
}

/// Whether some strain has the subvolume, or it is the EFI staging subvolume
/// of an enabled EFI sync.
pub open spec fn is_known_subvol(c: ConfigView, subvol: Seq<char>) -> bool {
    (exists|i: int|
        0 <= i < c.strain.len() && (#[trigger] c.strain[i]).1.subvolumes.contains(subvol)) || (
    c.sys.efi_enabled && subvol == c.sys.staging_subvol)
}

fn known_subvol(config: &Config, subvol: &str) -> (r: bool)
    ensures
        r == is_known_subvol(config@, subvol@),
{
    let list = config.strain.entries();
    let ghost c = config@;
    let mut i: usize = 0;
    while i < list.len()
        invariant
            i <= list.len(),
            c == config@,
            strain_views(list@) == c.strain,
            forall|a: int|
                0 <= a < i ==> !(#[trigger] c.strain[a]).1.subvolumes.contains(subvol@),
        decreases list.len() - i,
    {
        assert(c.strain[i as int] == list@[i as int]@);
        if contains_text(&list[i].config.subvolumes, subvol) {
            assert(c.strain[i as int].1.subvolumes.contains(subvol@));
            return true;
        }
        i = i + 1;
    }
    config.sys.efi.enabled && same_text(subvol, config.sys.efi.staging_subvol.as_str())
}

/// Whether the entry `name` of the snapshot directory looks like a snapshot
/// that the configuration does not cover, and is no DELETE marker.
pub open spec fn is_orphaned_entry(
    st: FsState,
    c: ConfigView,
    dir: PathView,
    name: Seq<char>,
) -> bool {
    &&& st.subvols.contains_key(dir.push(name))
    &&& name != "/"@ && name != ".."@
    &&& !is_claimed(c, name)
    &&& parse_name(name) matches Some((_, strain, _)) && strain != DELETE_STRAIN@
}

/// The finding for an entry that looks like a snapshot the configuration does
/// not cover.
pub open spec fn orphan_finding(c: ConfigView, name: Seq<char>) -> FindingView {
    let subvol = parse_name(name)->Some_0.0;
    let strain = parse_name(name)->Some_0.1;
    let known = lookup(c.strain, strain) is Some;
    let detail = if !known {
        "unknown strain '"@ + strain + "'"@
    } else if !is_known_subvol(c, subvol) {
        "strain '"@ + strain + "' is defined but does not include subvolume '"@ + subvol + "'"@
    } else {
        "strain definition no longer covers this snapshot"@
    };
    let hint = if known {
        "add '"@ + subvol + "' to strain."@ + strain
            + ".subvolumes or remove the snapshot manually"@
    } else {
        "define strain."@ + strain + " in the config and run `revenantctl delete "@ + strain
            + "@`, or remove manually"@
    };
    FindingView {
        severity: Severity::Warning,
        check: "orphaned-snapshot"@,
        message: name + "  ("@ + detail + ")"@,
        hint: Some(hint),
    }
}

fn describe_orphan(config: &Config, name: &str, subvol: &str, strain: &str) -> (r: Finding)
    requires
        parse_name(name@) matches Some((a, b, _)) && a == subvol@ && b == strain@,
    ensures
        r@ == orphan_finding(config@, name@),
{
    let known: bool = config.strain.contains_key(strain);
    let detail: String = if !known {
        cat3("unknown strain '", strain, "'")
    } else if !known_subvol(config, subvol) {
        cat5(
            "strain '",
            strain,
            "' is defined but does not include subvolume '",
            subvol,
            "'",
        )
    } else {
        "strain definition no longer covers this snapshot".to_owned()
    };
    let hint: String = if known {
        cat5(
            "add '",
            subvol,
            "' to strain.",
            strain,
            ".subvolumes or remove the snapshot manually",
        )
    } else {
        cat5(
            "define strain.",
            strain,
            " in the config and run `revenantctl delete ",
            strain,
            "@`, or remove manually",
        )
    };
    Finding::warning(
        "orphaned-snapshot",
        cat4(name, "  (", detail.as_str(), ")"),
    ).with_hint(hint)
}

/// Whether no message precedes an earlier one.
pub open spec fn sorted_by_message(v: Seq<FindingView>) -> bool {
    forall|i: int, j: int|
        0 <= i < j < v.len() ==> !text_less((#[trigger] v[j]).message, (#[trigger] v[i]).message)
}

/// Whether the findings are those for the entries `names`, one each.
pub open spec fn findings_for(c: ConfigView, v: Seq<FindingView>, names: Seq<Seq<char>>) -> bool {
    &&& v.len() == names.len()
    &&& forall|i: int| 0 <= i < v.len() ==> #[trigger] v[i] == orphan_finding(c, names[i])
}

fn insert_finding(v: &mut Vec<Finding>, item: Finding) -> (k: usize)
    requires
        sorted_by_message(finding_views(old(v)@)),
    ensures
        k <= old(v)@.len(),
        finding_views(final(v)@) == finding_views(old(v)@).insert(k as int, item@),
        sorted_by_message(finding_views(final(v)@)),
{
    let ghost before = finding_views(v@);
    let mut k: usize = 0;
    while k < v.len() && !precedes(item.message.as_str(), v[k].message.as_str())
        invariant
            k <= v.len(),
            before == finding_views(v@),
            forall|j: int| 0 <= j < k ==> !text_less(item@.message, (#[trigger] before[j]).message),
        decreases v.len() - k,
    {
        assert(before[k as int] == v@[k as int]@);
        k = k + 1;
    }
    proof {
        let now = before.insert(k as int, item@);
        assert(finding_views(v@.insert(k as int, item)) =~= now);
        if k < v.len() {
            assert(before[k as int] == v@[k as int]@);
        }
        assert forall|i: int, j: int| 0 <= i < j < now.len() implies !text_less(
            (#[trigger] now[j]).message,
            (#[trigger] now[i]).message,
        ) by {
            if i < k && j > k {
                assert(!text_less(before[j - 1].message, before[i].message));
            } else if i == k {
                let x = before[j - 1].message;
                let y = item@.message;
                if text_less(x, y) {
                    lemma_text_less_transitive(x, y, before[k as int].message);
                    if j - 1 > k {
                        assert(!text_less(before[j - 1].message, before[k as int].message));
                    } else {
                        lemma_text_less_irreflexive(x);
                    }
                }
            } else if i > k {
                assert(!text_less(before[j - 1].message, before[i - 1].message));
            } else if j < k {
                assert(!text_less(before[j].message, before[i].message));
            }
        }
    }
    v.insert(k, item);
    k
}

proof fn lemma_insert_distinct(s: Seq<Seq<char>>, k: int, x: Seq<char>)
    requires
        s.no_duplicates(),
        !s.contains(x),
        0 <= k <= s.len(),
    ensures
        s.insert(k, x).no_duplicates(),
{
    let t = s.insert(k, x);
    assert forall|i: int, j: int|
        0 <= i < t.len() && 0 <= j < t.len() && i != j implies t[i] != t[j] by {
        let a = if i < k {
            i
        } else {
            i - 1
        };
        let b = if j < k {
            j
        } else {
            j - 1
        };
        if i == k {
            assert(t[j] == s[b]);
        } else if j == k {
            assert(t[i] == s[a]);
        } else {
            assert(t[i] == s[a] && t[j] == s[b] && a != b);
        }
    }
}

/// Find subvolumes in the snapshot directory whose names look like snapshots
/// but that belong to no configured strain, sorted by message.
pub fn find_orphaned_snapshots<B: FileSystemBackend>(
    config: &Config,
    backend: &B,
    toplevel: &FsPath,
) -> (r: Result<Vec<Finding>>)
    ensures
        backend.reliable() ==> r is Ok,
        backend.reliable() && !backend.state().subvols.contains_key(
            snap_dir_of(config@, toplevel@),
        ) ==> r->Ok_0@.len() == 0,
        r is Ok ==> sorted_by_message(finding_views(r->Ok_0@)),
        r is Ok ==> exists|names: Seq<Seq<char>>| #[trigger]
            findings_for(config@, finding_views(r->Ok_0@), names) && names.no_duplicates() && (
            forall|i: int|
                0 <= i < names.len() ==> is_orphaned_entry(
                    backend.state(),
                    config@,
                    snap_dir_of(config@, toplevel@),
                    #[trigger] names[i],
                )) && (backend.reliable() && backend.state().subvols.contains_key(
                snap_dir_of(config@, toplevel@),
            ) ==> forall|n: Seq<char>| #[trigger]
                is_orphaned_entry(
                    backend.state(),
                    config@,
                    snap_dir_of(config@, toplevel@),
                    n,
                ) ==> names.contains(n)),
{
    let ghost st = backend.state();
    let dir = snapshot_dir(config, toplevel);
    let mut out: Vec<Finding> = Vec::new();
    let ghost mut done: Seq<Seq<char>> = Seq::empty();
    if !subvol_exists(backend, &dir) {
        let r: Result<Vec<Finding>> = Ok(out);
        assert(findings_for(config@, finding_views(r->Ok_0@), done));
        return r;
    }
    let listed = match backend.list_subvolumes(&dir) {
        Ok(v) => v,
        Err(e) => {
            return Err(e);
        },
    };
    let names = child_names(&listed, Ghost(st), Ghost(dir@));
    let mut i: usize = 0;
    while i < names.len()
        invariant
            i <= names.len(),
            st == backend.state(),
            is_child_names(st, dir@, views(names@)),
            sorted_by_message(finding_views(out@)),
            findings_for(config@, finding_views(out@), done),
            views(names@).no_duplicates(),
            done.no_duplicates(),
            forall|n: Seq<char>| #[trigger]
                done.contains(n) ==> exists|j: int| 0 <= j < i && views(names@)[j] == n,
            forall|k: int|
                0 <= k < done.len() ==> is_orphaned_entry(st, config@, dir@, #[trigger] done[k]),
            forall|j: int|
                0 <= j < i && is_orphaned_entry(st, config@, dir@, #[trigger] views(names@)[j])
                    ==> done.contains(views(names@)[j]),
        decreases names.len() - i,
    {
        let name = names[i].as_str();
        let ghost before = done;
        proof {
            assert(views(names@)[i as int] == name@);
            assert(views(names@).contains(name@));
        }
        if !claimed(config, name) {
            match parse_snapshot_name(name) {
                Some(p) => {
                    if !same_text(p.strain.as_str(), DELETE_STRAIN) {
                        let f = describe_orphan(
                            config,
                            name,
                            p.subvol.as_str(),
                            p.strain.as_str(),
                        );
                        let ghost old_views = finding_views(out@);
                        let k: usize = insert_finding(&mut out, f);
                        proof {
                            done = before.insert(k as int, name@);
                            assert(!before.contains(name@)) by {
                                if before.contains(name@) {
                                    let j = choose|j: int| 0 <= j < i && views(names@)[j] == name@;
                                    assert(views(names@)[j] != views(names@)[i as int]);
                                }
                            }
                            lemma_insert_distinct(before, k as int, name@);
                            assert forall|n: Seq<char>| #[trigger] done.contains(
                                n,
                            ) implies exists|j: int| 0 <= j < i + 1 && views(names@)[j] == n by {
                                let x = choose|x: int| 0 <= x < done.len() && done[x] == n;
                                if x == k {
                                    assert(views(names@)[i as int] == n);
                                } else {
                                    let y = if x < k {
                                        x
                                    } else {
                                        x - 1
                                    };
                                    assert(before[y] == n);
                                    assert(before.contains(n));
                                    let j = choose|j: int| 0 <= j < i && views(names@)[j] == n;
                                    assert(views(names@)[j] == n);
                                }
                            }
                            let now = finding_views(out@);
                            assert(is_orphaned_entry(st, config@, dir@, name@));
                            assert forall|x: int| 0 <= x < now.len() implies #[trigger] now[x]
                                == orphan_finding(config@, done[x]) by {
                                if x < k {
                                    assert(now[x] == old_views[x]);
                                    assert(old_views[x] == orphan_finding(config@, before[x]));
                                } else if x > k {
                                    assert(now[x] == old_views[x - 1]);
                                    assert(old_views[x - 1] == orphan_finding(
                                        config@,
                                        before[x - 1],
                                    ));
                                }
                            }
                            assert forall|x: int| 0 <= x < done.len() implies is_orphaned_entry(
                                st,
                                config@,
                                dir@,
                                #[trigger] done[x],
                            ) by {
                                if x < k {
                                    assert(done[x] == before[x]);
                                } else if x > k {
                                    assert(done[x] == before[x - 1]);
                                }
                            }
                            assert forall|n: Seq<char>| #[trigger] before.contains(
                                n,
                            ) implies done.contains(n) by {
                                let x = choose|x: int| 0 <= x < before.len() && before[x] == n;
                                if x < k {
                                    assert(done[x] == n);
                                } else {
                                    assert(done[x + 1] == n);
                                }
                            }
                            assert(done[k as int] == name@);
                        }
                    }
                },
                None => {},
            }
        }
        i = i + 1;
    }
    let r: Result<Vec<Finding>> = Ok(out);
    proof {
        assert forall|n: Seq<char>| #[trigger] is_orphaned_entry(
            st,
            config@,
            dir@,
            n,
        ) implies done.contains(n) by {
            assert(views(names@).contains(n));
            let j = choose|j: int| 0 <= j < views(names@).len() && views(names@)[j] == n;
            assert(is_orphaned_entry(st, config@, dir@, views(names@)[j]));
        }
        assert(findings_for(config@, finding_views(r->Ok_0@), done));
    }
    r
}

/// The finding for a sidecar without a companion.
pub open spec fn sidecar_finding(name: Seq<char>) -> FindingView {
    FindingView {
        severity: Severity::Warning,
        check: "orphaned-sidecar"@,
        message: name + "  (no matching snapshot subvolume)"@,
        hint: Some("run `revenantctl cleanup` to remove orphaned sidecar metadata"@),
    }
}

/// The findings for some sidecars without companions.
pub open spec fn sidecar_findings(names: Seq<Seq<char>>) -> Seq<FindingView> {
    Seq::new(names.len(), |i: int| sidecar_finding(names[i]))
}

/// Find sidecar files in the snapshot directory whose matching snapshot
/// subvolume is gone.
pub fn find_orphaned_sidecars<B: FileSystemBackend>(
    config: &Config,
    backend: &B,
    toplevel: &FsPath,
) -> (r: Result<Vec<Finding>>)
    ensures
        backend.reliable() ==> r is Ok,
        backend.reliable() && !backend.state().subvols.contains_key(
            snap_dir_of(config@, toplevel@),
        ) ==> r->Ok_0@.len() == 0,
        r is Ok ==> exists|names: Seq<Seq<char>>|
            finding_views(r->Ok_0@) == #[trigger] sidecar_findings(names) && strictly_ascending(
                names,
            ) && (forall|i: int|
                0 <= i < names.len() ==> is_orphan(
                    backend.state(),
                    snap_dir_of(config@, toplevel@),
                    #[trigger] names[i],
                )) && (backend.reliable() && backend.state().subvols.contains_key(
                snap_dir_of(config@, toplevel@),
            ) ==> forall|n: Seq<char>| #[trigger]
                is_orphan(backend.state(), snap_dir_of(config@, toplevel@), n) ==> names.contains(
                    n,
                )),
{
    let dir = snapshot_dir(config, toplevel);
    let orphans = match metadata::find_orphaned_sidecars(&dir, backend) {
        Ok(v) => v,
        Err(e) => {
            return Err(e);
        },
    };
    let ghost names = orphan_names(orphans@);
    let mut out: Vec<Finding> = Vec::new();
    let mut i: usize = 0;
    while i < orphans.len()
        invariant
            i <= orphans.len(),
            names == orphan_names(orphans@),
            finding_views(out@) == sidecar_findings(names).take(i as int),
        decreases orphans.len() - i,
    {
        let f = Finding::warning(
            "orphaned-sidecar",
            cat2(orphans[i].name.as_str(), "  (no matching snapshot subvolume)"),
        ).with_hint("run `revenantctl cleanup` to remove orphaned sidecar metadata".to_owned());
        let ghost before = finding_views(out@);
        out.push(f);
        proof {
            assert(finding_views(out@) =~= before.push(f@));
            assert(sidecar_findings(names).take(i + 1) =~= sidecar_findings(names).take(
                i as int,
            ).push(sidecar_finding(names[i as int])));
        }
        i = i + 1;
    }
    let r: Result<Vec<Finding>> = Ok(out);
    proof {
        assert(sidecar_findings(names).take(names.len() as int) =~= sidecar_findings(names));
        assert(finding_views(r->Ok_0@) == sidecar_findings(names));
        assert forall|i: int| 0 <= i < names.len() implies is_orphan(
            backend.state(),
            dir@,
            #[trigger] names[i],
        ) by {
            assert(is_orphan(backend.state(), dir@, orphans@[i].name@));
        }
    }
    r
}


/// One line per nested subvolume, under the name of the subvolume it is in.
pub open spec fn nested_lines(
    subvol: Seq<char>,
    path: PathView,
    nested: Seq<PathView>,
) -> Seq<char>
    decreases nested.len(),
{
    if nested.len() == 0 {
        Seq::empty()
    } else {
        nested_lines(subvol, path, nested.drop_last()) + "\n    "@ + subvol + "/"@ + path_text(
            nested.last().skip(path.len() as int),
        )
    }
}

/// The finding for a subvolume with others nested in it.
pub open spec fn nested_finding(
    subvol: Seq<char>,
    path: PathView,
    nested: Seq<PathView>,
) -> FindingView {
    FindingView {
        severity: Severity::Info,
        check: "nested-subvolumes"@,
        message: "'"@ + subvol
            + "' contains nested subvolumes whose contents are not versioned by snapshots:"@
            + nested_lines(subvol, path, nested),
        hint: Some(
            "revenant re-attaches these across a restore at their current state — a rollback will not revert their contents"@,
        ),
    }
}

/// The findings for the subvolumes that have others nested in them.
pub open spec fn nested_findings(
    toplevel: PathView,
    subs: Seq<Seq<char>>,
    nested: Seq<Seq<PathView>>,
) -> Seq<FindingView>
    decreases subs.len(),
{
    if subs.len() == 0 || nested.len() != subs.len() {
        Seq::empty()
    } else {
        let rest = nested_findings(toplevel, subs.drop_last(), nested.drop_last());
        if nested.last().len() == 0 {
            rest
        } else {
            rest.push(
                nested_finding(subs.last(), path_join(toplevel, subs.last()), nested.last()),
            )
        }
    }
}

/// The subvolumes of all strains, each once, in order.
pub open spec fn all_subvols(c: ConfigView) -> Seq<Seq<char>> {
    sorted_texts(strain_bases(c.strain, c.strain.len()))
}

fn describe_nested(subvol: &str, path: &FsPath, nested: &Vec<FsPath>) -> (r: Finding)
    requires
        forall|i: int| 0 <= i < nested@.len() ==> within((#[trigger] nested@[i])@, path@),
    ensures
        r@ == nested_finding(subvol@, path@, path_views(nested@)),
{
    let ghost all = path_views(nested@);
    let head = cat3(
        "'",
        subvol,
        "' contains nested subvolumes whose contents are not versioned by snapshots:",
    );
    let mut lines: String = String::new();
    let mut i: usize = 0;
    let base = FsPath { parts: Vec::new() };
    proof {
        assert(all.take(0) =~= Seq::empty());
        assert(base@ =~= Seq::empty());
    }
    while i < nested.len()
        invariant
            i <= nested.len(),
            all == path_views(nested@),
            base@ == Seq::<Seq<char>>::empty(),
            forall|i: int| 0 <= i < nested@.len() ==> within((#[trigger] nested@[i])@, path@),
            lines@ == nested_lines(subvol@, path@, all.take(i as int)),
        decreases nested.len() - i,
    {
        let rel = nested[i].rebase(path, &base);
        proof {
            assert(all.take(i + 1).drop_last() =~= all.take(i as int));
            assert(all.take(i + 1).last() == nested@[i as int]@);
            assert(rel@ =~= nested@[i as int]@.skip(path@.len() as int));
        }
        lines.append("\n    ");
        lines.append(subvol);
        lines.append("/");
        lines.append(rel.display().as_str());
        i = i + 1;
    }
    assert(all.take(all.len() as int) =~= all);
    Finding::info("nested-subvolumes", cat2(head.as_str(), lines.as_str())).with_hint(
        "revenant re-attaches these across a restore at their current state — a rollback will not revert their contents".to_owned(),
    )
}

/// Check configured snapshot sources for nested subvolumes, whose contents a
/// snapshot of the source does not hold.
#[must_use]
pub fn find_nested_subvolumes<B: FileSystemBackend>(
    config: &Config,
    backend: &B,
    toplevel: &FsPath,
) -> (r: Vec<Finding>)
    ensures
        exists|nested: Seq<Seq<PathView>>|
            nested.len() == all_subvols(config@).len() && finding_views(r@)
                == #[trigger] nested_findings(toplevel@, all_subvols(config@), nested) && forall|
                k: int,
            |
                0 <= k < nested.len() ==> is_nesting(
                    backend.state(),
                    path_join(toplevel@, all_subvols(config@)[k]),
                    #[trigger] nested[k],
                ) || (!backend.reliable() && nested[k].len() == 0),
{
    let ghost st = backend.state();
    let bases = collect_strain_subvols(config);
    let subs = sort_texts(&bases);
    let ghost all = all_subvols(config@);
    let mut out: Vec<Finding> = Vec::new();
    let ghost mut nested: Seq<Seq<PathView>> = Seq::empty();
    let mut i: usize = 0;
    proof {
        assert(all.take(0) =~= Seq::empty());
        assert(finding_views(out@) =~= Seq::empty());
    }
    while i < subs.len()
        invariant
            i <= subs.len(),
            st == backend.state(),
            all == views(subs@),
            all == all_subvols(config@),
            nested.len() == i,
            finding_views(out@) == nested_findings(toplevel@, all.take(i as int), nested),
            forall|k: int|
                0 <= k < nested.len() ==> is_nesting(
                    st,
                    path_join(toplevel@, all[k]),
                    #[trigger] nested[k],
                ) || (!backend.reliable() && nested[k].len() == 0),
        decreases subs.len() - i,
    {
        let subvol = subs[i].as_str();
        let path = toplevel.join(subvol);
        let ghost before = finding_views(out@);
        let ghost mut here: Seq<PathView> = Seq::empty();
        proof {
            assert(all[i as int] == subvol@);
            assert(all.take(i + 1).drop_last() =~= all.take(i as int));
            assert(all.take(i + 1).last() == subvol@);
        }
        match backend.find_nested_subvolumes(&path) {
            Ok(found) => {
                proof {
                    here = path_views(found@);
                    assert forall|k: int| 0 <= k < found@.len() implies within(
                        (#[trigger] found@[k])@,
                        path@,
                    ) by {
                        assert(here[k] == found@[k]@);
                        assert(is_nested(st, path@, here[k]));
                        lemma_within_self(here[k], path@);
                    }
                }
                if found.len() > 0 {
                    let f = describe_nested(subvol, &path, &found);
                    out.push(f);
                    assert(finding_views(out@) =~= before.push(f@));
                }
            },
            Err(_) => {},
        }
        proof {
            assert(nested.push(here).drop_last() =~= nested);
            nested = nested.push(here);
        }
        i = i + 1;
    }
    proof {
        assert(all.take(all.len() as int) =~= all);
        assert(finding_views(out@) == nested_findings(toplevel@, all_subvols(config@), nested));
    }
    out
}

} // verus!
