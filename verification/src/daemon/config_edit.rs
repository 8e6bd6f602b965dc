//! Editing of the configuration file in place.
//!
//! The file is edited as a `toml_edit` document, which keeps comments, order
//! and spacing. A document is modelled by what lies at each path of keys
//! through its tables and by the comments there; how it is laid out is left to
//! the crate.

use vstd::prelude::*;
use vstd::string::*;

use core::str::FromStr;

use toml_edit::DocumentMut;

use crate::backend::{outside, FileSystemBackend, FsState};
use crate::config::RetainConfig;
use crate::path::{path_of, path_text, within, FsPath, PathView};
use crate::text::{cat2, cat3, cat4};

verus! {

/// Where the configuration lies.
pub const CONFIG_PATH: &'static str = "/etc/revenant/config.toml";

/// `toml_edit::DocumentMut`, a TOML document with its layout.
#[verifier::external_type_specification]
#[verifier::external_body]
pub struct ExDocumentMut(toml_edit::DocumentMut);

/// What lies at a path of a document: a table or a value. One that is neither
/// an integer nor a text nor a truth value is given by a spelling that tells
/// it from every other.
pub enum DocNode {
    Table,
    Number(int),
    Text(Seq<char>),
    Flag(bool),
    Other(Seq<char>),
}

/// What a document holds, by path, and the comments that stand at a path or in
/// the value there, without their line ends. Those at the document's end stand
/// at its root.
pub struct DocView {
    pub nodes: Map<PathView, DocNode>,
    pub comments: Map<PathView, Seq<Seq<char>>>,
}

/// What a document holds, with its comments.
pub uninterp spec fn doc_view(d: DocumentMut) -> DocView;

/// What a document holds, by path.
pub open spec fn doc_nodes(d: DocumentMut) -> Map<PathView, DocNode> {
    doc_view(d).nodes
}

/// Whether a document was read from a text and then changed, if at all, only
/// by the functions below: its layout holds spacing and comments and nothing
/// else.
pub uninterp spec fn doc_faithful(d: DocumentMut) -> bool;

/// The text of a document.
pub uninterp spec fn doc_text(d: DocumentMut) -> Seq<char>;

/// What `toml_edit` reads from a text: what it holds, with its comments, or an
/// error message.
pub uninterp spec fn parsed(s: Seq<char>) -> core::result::Result<DocView, Seq<char>>;

/// What `toml_edit` reads from a text, by path, or an error message.
pub open spec fn parsed_nodes(s: Seq<char>) -> core::result::Result<
    Map<PathView, DocNode>,
    Seq<char>,
> {
    match parsed(s) {
        Ok(v) => Ok(v.nodes),
        Err(m) => Err(m),
    }
}

/// Calls `DocumentMut::from_str`. What the document holds is named, and the
/// document is faithful to the text.
#[verifier::external_body]
fn parse_document(s: &str) -> (r: core::result::Result<DocumentMut, String>)
    ensures
        match r {
            Ok(d) => parsed(s@) is Ok && parsed(s@)->Ok_0 == doc_view(d) && doc_faithful(d),
            Err(m) => parsed(s@) is Err && parsed(s@)->Err_0 == m@,
        },
{
    DocumentMut::from_str(s).map_err(|e| e.to_string())
}

/// Whether a table lies at a path.
pub open spec fn table_at(m: Map<PathView, DocNode>, p: PathView) -> bool {
    m.contains_key(p) && m[p] is Table
}

/// Calls `Table::get` on the document's root: whether a table lies at `a`.
#[verifier::external_body]
fn is_table(d: &DocumentMut, a: &str) -> (r: bool)
    ensures
        r == table_at(doc_nodes(*d), seq![a@]),
{
    d.get(a).is_some_and(|i| i.is_table())
}

/// Calls `Item::get` on the table at `a`: whether a table lies at `a.b`.
#[verifier::external_body]
fn is_subtable(d: &DocumentMut, a: &str, b: &str) -> (r: bool)
    requires
        table_at(doc_nodes(*d), seq![a@]),
    ensures
        r == table_at(doc_nodes(*d), seq![a@, b@]),
{
    d[a].get(b).is_some_and(|i| i.is_table())
}

/// What lies under a key.
#[derive(Debug, Clone, Copy, PartialEq, Eq, Structural)]
pub enum KeyKind {
    Absent,
    Table,
    Other,
}

/// Calls `Item::get` on the table at `a.b`: what lies at `a.b.c`.
#[verifier::external_body]
fn kind_of(d: &DocumentMut, a: &str, b: &str, c: &str) -> (r: KeyKind)
    requires
        table_at(doc_nodes(*d), seq![a@]),
        table_at(doc_nodes(*d), seq![a@, b@]),
    ensures
        (r == KeyKind::Absent) == !doc_nodes(*d).contains_key(seq![a@, b@, c@]),
        (r == KeyKind::Table) == table_at(doc_nodes(*d), seq![a@, b@, c@]),
{
    match d[a][b].get(c) {
        None => KeyKind::Absent,
        Some(toml_edit::Item::Table(_)) => KeyKind::Table,
        Some(_) => KeyKind::Other,
    }
}

/// What a document holds after something was put at `p` in place of what was
/// there.
pub open spec fn put(m: Map<PathView, DocNode>, p: PathView, n: DocNode) -> Map<
    PathView,
    DocNode,
> {
    outside(m, p).insert(p, n)
}

/// Whether the comments differ in no more than those at `p` or inside it.
pub open spec fn same_comments(a: DocView, b: DocView, p: PathView) -> bool {
    outside(a.comments, p) == outside(b.comments, p)
}

/// Assigns an empty `toml_edit::Table` to `a.b.c`. Comments elsewhere stay.
#[verifier::external_body]
fn add_table(d: &mut DocumentMut, a: &str, b: &str, c: &str)
    requires
        table_at(doc_nodes(*old(d)), seq![a@]),
        table_at(doc_nodes(*old(d)), seq![a@, b@]),
    ensures
        doc_nodes(*final(d)) == put(doc_nodes(*old(d)), seq![a@, b@, c@], DocNode::Table),
        same_comments(doc_view(*old(d)), doc_view(*final(d)), seq![a@, b@, c@]),
        doc_faithful(*old(d)) ==> doc_faithful(*final(d)),
{
    d[a][b][c] = toml_edit::Item::Table(toml_edit::Table::new());
}

/// Assigns `toml_edit::value` of an integer to `a.b.c.key`. Comments elsewhere
/// stay.
#[verifier::external_body]
fn set_number(d: &mut DocumentMut, a: &str, b: &str, c: &str, key: &str, n: i64)
    requires
        table_at(doc_nodes(*old(d)), seq![a@]),
        table_at(doc_nodes(*old(d)), seq![a@, b@]),
        table_at(doc_nodes(*old(d)), seq![a@, b@, c@]),
    ensures
        doc_nodes(*final(d)) == put(
            doc_nodes(*old(d)),
            seq![a@, b@, c@, key@],
            DocNode::Number(n as int),
        ),
        same_comments(doc_view(*old(d)), doc_view(*final(d)), seq![a@, b@, c@, key@]),
        doc_faithful(*old(d)) ==> doc_faithful(*final(d)),
{
    d[a][b][c][key] = toml_edit::value(n);
}

/// Calls `Table::remove` on the table at `a.b.c`. Comments elsewhere stay.
#[verifier::external_body]
fn remove_key(d: &mut DocumentMut, a: &str, b: &str, c: &str, key: &str)
    requires
        table_at(doc_nodes(*old(d)), seq![a@]),
        table_at(doc_nodes(*old(d)), seq![a@, b@]),
        table_at(doc_nodes(*old(d)), seq![a@, b@, c@]),
    ensures
        doc_nodes(*final(d)) == outside(doc_nodes(*old(d)), seq![a@, b@, c@, key@]),
        same_comments(doc_view(*old(d)), doc_view(*final(d)), seq![a@, b@, c@, key@]),
        doc_faithful(*old(d)) ==> doc_faithful(*final(d)),
{
    d[a][b][c].as_table_mut().unwrap().remove(key);
}

/// Whether `a` holds what `b` holds, but for tables that hold no value.
pub open spec fn same_values(a: Map<PathView, DocNode>, b: Map<PathView, DocNode>) -> bool {
    &&& forall|p: PathView| #[trigger] a.contains_key(p) ==> b.contains_key(p) && a[p] == b[p]
    &&& forall|p: PathView| #[trigger]
        b.contains_key(p) && !a.contains_key(p) ==> forall|q: PathView| #[trigger]
            b.contains_key(q) && within(q, p) ==> b[q] is Table
}

/// Calls `DocumentMut::to_string`. The text is named. Reading the text of a
/// faithful document gives what the document holds; only a table that holds no
/// value may be missing, as one made by dotted keys is not written once it is
/// empty. The comments are read back too.
#[verifier::external_body]
fn document_text(d: &DocumentMut) -> (r: String)
    ensures
        r@ == doc_text(*d),
        doc_faithful(*d) ==> parsed(r@) is Ok,
        doc_faithful(*d) ==> same_values(parsed(r@)->Ok_0.nodes, doc_nodes(*d)),
        doc_faithful(*d) ==> parsed(r@)->Ok_0.comments == doc_view(*d).comments,
{
    d.to_string()
}

/// Where the tier `key` of a strain's retention lies.
pub open spec fn tier_path(strain: Seq<char>, key: Seq<char>) -> PathView {
    seq!["strain"@, strain, "retain"@, key]
}

/// What a document holds after a tier was set. A tier of 0 is left out.
pub open spec fn with_tier(
    m: Map<PathView, DocNode>,
    strain: Seq<char>,
    key: Seq<char>,
    n: usize,
) -> Map<PathView, DocNode> {
    if n == 0 {
        outside(m, tier_path(strain, key))
    } else {
        put(
            m,
            tier_path(strain, key),
            DocNode::Number(
                if n <= i64::MAX {
                    n as int
                } else {
                    i64::MAX as int
                },
            ),
        )
    }
}

/// What a document holds after a strain's retention was set.
pub open spec fn with_retention(
    m: Map<PathView, DocNode>,
    strain: Seq<char>,
    r: RetainConfig,
) -> Map<PathView, DocNode> {
    let retain = seq!["strain"@, strain, "retain"@];
    let m0 = if m.contains_key(retain) {
        m
    } else {
        put(m, retain, DocNode::Table)
    };
    let m1 = with_tier(m0, strain, "last"@, r.last);
    let m2 = with_tier(m1, strain, "hourly"@, r.hourly);
    let m3 = with_tier(m2, strain, "daily"@, r.daily);
    let m4 = with_tier(m3, strain, "weekly"@, r.weekly);
    let m5 = with_tier(m4, strain, "monthly"@, r.monthly);
    with_tier(m5, strain, "yearly"@, r.yearly)
}

/// What keeps a strain's retention from being set, if anything.
pub open spec fn edit_fault(m: Map<PathView, DocNode>, strain: Seq<char>) -> Option<Seq<char>> {
    let retain = seq!["strain"@, strain, "retain"@];
    if !table_at(m, seq!["strain"@]) {
        Some("config has no [strain.*] section"@)
    } else if !table_at(m, seq!["strain"@, strain]) {
        Some("unknown strain: "@ + strain)
    } else if m.contains_key(retain) && !table_at(m, retain) {
        Some("[strain."@ + strain + ".retain] is not a table"@)
    } else {
        None
    }
}

/// Whether the tables round a strain's retention are there.
pub open spec fn editable(m: Map<PathView, DocNode>, strain: Seq<char>) -> bool {
    &&& table_at(m, seq!["strain"@])
    &&& table_at(m, seq!["strain"@, strain])
    &&& table_at(m, seq!["strain"@, strain, "retain"@])
}

proof fn lemma_tier_apart(strain: Seq<char>, key: Seq<char>)
    ensures
        !within(seq!["strain"@], tier_path(strain, key)),
        !within(seq!["strain"@, strain], tier_path(strain, key)),
        !within(seq!["strain"@, strain, "retain"@], tier_path(strain, key)),
        !within(seq!["strain"@], seq!["strain"@, strain, "retain"@]),
        !within(seq!["strain"@, strain], seq!["strain"@, strain, "retain"@]),
{
}

/// Where a strain's retention lies.
pub open spec fn retain_path(strain: Seq<char>) -> PathView {
    seq!["strain"@, strain, "retain"@]
}

proof fn lemma_comments_widen(a: DocView, b: DocView, strain: Seq<char>, key: Seq<char>)
    requires
        same_comments(a, b, tier_path(strain, key)),
    ensures
        same_comments(a, b, retain_path(strain)),
{
    let t = tier_path(strain, key);
    let r = retain_path(strain);
    assert(t.take(3) =~= r);
    let (x, y) = (outside(a.comments, r), outside(b.comments, r));
    assert forall|p: PathView| !within(p, r) implies (#[trigger] a.comments.contains_key(p)
        == b.comments.contains_key(p)) && (a.comments.contains_key(p) ==> a.comments[p]
        == b.comments[p]) by {
        if within(p, t) {
            crate::path::lemma_within_trans(p, t, r);
        }
        assert(outside(a.comments, t).contains_key(p) == outside(b.comments, t).contains_key(p));
        if a.comments.contains_key(p) {
            assert(outside(a.comments, t)[p] == outside(b.comments, t)[p]);
        }
    }
    assert(x =~= y);
}

/// Set a tier of a strain's retention; a tier of 0 is removed.
fn set_or_remove(d: &mut DocumentMut, strain: &str, key: &str, n: usize)
    requires
        editable(doc_nodes(*old(d)), strain@),
    ensures
        doc_nodes(*final(d)) == with_tier(doc_nodes(*old(d)), strain@, key@, n),
        editable(doc_nodes(*final(d)), strain@),
        same_comments(doc_view(*old(d)), doc_view(*final(d)), retain_path(strain@)),
        doc_faithful(*old(d)) ==> doc_faithful(*final(d)),
{
    proof {
        lemma_tier_apart(strain@, key@);
    }
    let ghost before = doc_view(*d);
    if n == 0 {
        remove_key(d, "strain", strain, "retain", key);
    } else {
        let value: i64 = if n as u64 <= i64::MAX as u64 {
            n as i64
        } else {
            i64::MAX
        };
        set_number(d, "strain", strain, "retain", key, value);
    }
    proof {
        lemma_comments_widen(before, doc_view(*d), strain@, key@);
    }
}

/// Set the retention of a strain in a document.
fn edit_document(d: &mut DocumentMut, strain: &str, retain: &RetainConfig) -> (r:
    core::result::Result<(), String>)
    ensures
        match edit_fault(doc_nodes(*old(d)), strain@) {
            Some(m) => r is Err && r->Err_0@ == m && doc_nodes(*final(d)) == doc_nodes(*old(d)),
            None => r is Ok && doc_nodes(*final(d)) == with_retention(
                doc_nodes(*old(d)),
                strain@,
                *retain,
            ),
        },
        same_comments(doc_view(*old(d)), doc_view(*final(d)), retain_path(strain@)),
        doc_faithful(*old(d)) ==> doc_faithful(*final(d)),
{
    if !is_table(d, "strain") {
        return Err("config has no [strain.*] section".to_owned());
    }
    if !is_subtable(d, "strain", strain) {
        return Err(cat2("unknown strain: ", strain));
    }
    match kind_of(d, "strain", strain, "retain") {
        KeyKind::Other => {
            return Err(cat3("[strain.", strain, ".retain] is not a table"));
        },
        KeyKind::Absent => {
            proof {
                lemma_tier_apart(strain@, "last"@);
            }
            add_table(d, "strain", strain, "retain");
        },
        KeyKind::Table => {},
    }
    set_or_remove(d, strain, "last", retain.last);
    set_or_remove(d, strain, "hourly", retain.hourly);
    set_or_remove(d, strain, "daily", retain.daily);
    set_or_remove(d, strain, "weekly", retain.weekly);
    set_or_remove(d, strain, "monthly", retain.monthly);
    set_or_remove(d, strain, "yearly", retain.yearly);
    Ok(())
}

/// Whether `after` is the text `before` of a configuration file with a strain's
/// retention replaced: it is the text of a document that holds what `before`
/// holds, but for the strain's tiers, and reading it gives that back. The
/// comments are as before, but for those at the strain's retention.
pub open spec fn retention_set(
    before: Seq<char>,
    after: Seq<char>,
    strain: Seq<char>,
    r: RetainConfig,
) -> bool {
    let w = with_retention(parsed_nodes(before)->Ok_0, strain, r);
    &&& parsed_nodes(before) is Ok
    &&& edit_fault(parsed_nodes(before)->Ok_0, strain) is None
    &&& exists|d: DocumentMut| #[trigger] doc_nodes(d) == w && after == doc_text(d)
    &&& parsed(after) is Ok
    &&& same_values(parsed_nodes(after)->Ok_0, w)
    &&& same_comments(parsed(before)->Ok_0, parsed(after)->Ok_0, retain_path(strain))
}

/// The message where a strain's retention cannot be set in the text of the
/// file at `path`, if it cannot.
pub open spec fn text_fault(
    path: Seq<char>,
    content: Seq<char>,
    strain: Seq<char>,
) -> Option<Seq<char>> {
    match parsed_nodes(content) {
        Err(m) => Some("parse "@ + path + " as TOML: "@ + m),
        Ok(nodes) => edit_fault(nodes, strain),
    }
}

/// The text of the configuration file with a strain's retention replaced, given
/// the file's text. Keys of value 0 are removed. `path` is named in the error
/// for a text that is not TOML.
///
/// That order and spacing stay as they were is `toml_edit`'s doing; the
/// contract speaks of what the document holds and of its comments.
pub fn with_strain_retention(
    path: &str,
    content: &str,
    strain: &str,
    retain: &RetainConfig,
) -> (r: core::result::Result<String, String>)
    ensures
        match text_fault(path@, content@, strain@) {
            Some(m) => r is Err && r->Err_0@ == m,
            None => r is Ok && retention_set(content@, r->Ok_0@, strain@, *retain),
        },
{
    let mut d = match parse_document(content) {
        Ok(d) => d,
        Err(m) => {
            return Err(cat4("parse ", path, " as TOML: ", m.as_str()));
        },
    };
    match edit_document(&mut d, strain, retain) {
        Ok(_) => {},
        Err(m) => {
            return Err(m);
        },
    }
    let text = document_text(&d);
    assert(doc_nodes(d) == with_retention(parsed_nodes(content@)->Ok_0, strain@, *retain));
    Ok(text)
}

/// The message where the file at `path` is not there.
pub open spec fn no_file(path: PathView) -> Seq<char> {
    "read "@ + path_text(path) + ": No such file or directory (os error 2)"@
}

/// Replace the retention of a strain in the configuration file at `path`.
///
/// It is an error if the strain is missing: strains are not added here.
pub fn set_strain_retention_at<B: FileSystemBackend>(
    fs: &mut B,
    path: &FsPath,
    strain: &str,
    retain: &RetainConfig,
) -> (r: core::result::Result<(), String>)
    ensures
        final(fs).reliable() == old(fs).reliable(),
        r is Err ==> final(fs).state() == old(fs).state(),
        r is Ok ==> old(fs).state().files.contains_key(path@) && exists|text: Seq<char>| #[trigger]
            retention_set(old(fs).state().files[path@], text, strain@, *retain) && final(
                fs).state() == (FsState {
                files: old(fs).state().files.insert(path@, text),
                ..old(fs).state()
            }),
        old(fs).reliable() ==> {
            if !old(fs).state().files.contains_key(path@) {
                r is Err && r->Err_0@ == no_file(path@)
            } else {
                match text_fault(path_text(path@), old(fs).state().files[path@], strain@) {
                    Some(m) => r is Err && r->Err_0@ == m,
                    None => r is Ok,
                }
            }
        },
{
    let shown = path.display();
    let content = match fs.read_file(path) {
        Ok(Some(t)) => t,
        Ok(None) => {
            return Err(cat3("read ", shown.as_str(), ": No such file or directory (os error 2)"));
        },
        Err(e) => {
            return Err(cat4("read ", shown.as_str(), ": ", e.message().as_str()));
        },
    };
    let text = match with_strain_retention(shown.as_str(), content.as_str(), strain, retain) {
        Ok(t) => t,
        Err(m) => {
            return Err(m);
        },
    };
    assert(retention_set(content@, text@, strain@, *retain));
    match fs.write_file(path, text.as_str()) {
        Ok(_) => Ok(()),
        Err(e) => Err(e.message()),
    }
}

/// Replace the retention of a strain in the configuration file.
pub fn set_strain_retention<B: FileSystemBackend>(
    fs: &mut B,
    strain: &str,
    retain: &RetainConfig,
) -> (r: core::result::Result<(), String>)
    ensures
        final(fs).reliable() == old(fs).reliable(),
        r is Err ==> final(fs).state() == old(fs).state(),
        r is Ok ==> config_edited(old(fs).state(), final(fs).state(), strain@, *retain),
        old(fs).reliable() ==> match retention_fault(old(fs).state(), strain@) {
            Some(m) => r is Err && r->Err_0@ == m,
            None => r is Ok,
        },
{
    set_strain_retention_at(fs, &FsPath::new(CONFIG_PATH), strain, retain)
}

/// Whether `b` is `a` with a strain's retention replaced in the configuration
/// file.
pub open spec fn config_edited(
    a: FsState,
    b: FsState,
    strain: Seq<char>,
    r: RetainConfig,
) -> bool {
    let path = path_of(CONFIG_PATH@);
    a.files.contains_key(path) && exists|text: Seq<char>| #[trigger]
        retention_set(a.files[path], text, strain, r) && b == (FsState {
            files: a.files.insert(path, text),
            ..a
        })
}

/// The message where a strain's retention cannot be set in the configuration
/// file, if it cannot.
pub open spec fn retention_fault(st: FsState, strain: Seq<char>) -> Option<Seq<char>> {
    let path = path_of(CONFIG_PATH@);
    if !st.files.contains_key(path) {
        Some(no_file(path))
    } else {
        text_fault(path_text(path), st.files[path], strain)
    }
}

/// The file that an edited configuration is written to before it takes the
/// place of the old one.
pub fn tmp_path(path: &str) -> (r: String)
    ensures
        r@ == path@ + ".tmp"@,
{
    cat2(path, ".tmp")
}

/// Where a tier lies is different for each tier.
proof fn lemma_tiers_apart(strain: Seq<char>, a: Seq<char>, b: Seq<char>)
    requires
        a != b,
    ensures
        !within(tier_path(strain, a), tier_path(strain, b)),
{
    if within(tier_path(strain, a), tier_path(strain, b)) {
        assert(tier_path(strain, a).take(4) =~= tier_path(strain, a));
        assert(tier_path(strain, a)[3] == tier_path(strain, b)[3]);
    }
}

proof fn lemma_put_spares(m: Map<PathView, DocNode>, q: PathView, n: DocNode, p: PathView)
    requires
        !within(p, q),
    ensures
        put(m, q, n).contains_key(p) == m.contains_key(p),
        m.contains_key(p) ==> put(m, q, n)[p] == m[p],
        outside(m, q).contains_key(p) == m.contains_key(p),
        m.contains_key(p) ==> outside(m, q)[p] == m[p],
{
    assert(q.take(q.len() as int) =~= q);
    assert(p != q);
}

proof fn lemma_tier_spares(
    m: Map<PathView, DocNode>,
    strain: Seq<char>,
    key: Seq<char>,
    n: usize,
    p: PathView,
)
    requires
        !within(p, seq!["strain"@, strain, "retain"@]),
    ensures
        with_tier(m, strain, key, n).contains_key(p) == m.contains_key(p),
        m.contains_key(p) ==> with_tier(m, strain, key, n)[p] == m[p],
{
    let retain = seq!["strain"@, strain, "retain"@];
    let t = tier_path(strain, key);
    assert(t.take(3) =~= retain);
    if within(p, t) {
        crate::path::lemma_within_trans(p, t, retain);
    }
    let v = if n <= i64::MAX {
        n as int
    } else {
        i64::MAX as int
    };
    lemma_put_spares(m, t, DocNode::Number(v), p);
}

/// Setting a strain's retention touches nothing that does not belong to it.
pub proof fn law_edit_spares_the_rest(
    m: Map<PathView, DocNode>,
    strain: Seq<char>,
    r: RetainConfig,
    p: PathView,
)
    requires
        edit_fault(m, strain) is None,
        !within(p, seq!["strain"@, strain, "retain"@]),
    ensures
        with_retention(m, strain, r).contains_key(p) == m.contains_key(p),
        m.contains_key(p) ==> with_retention(m, strain, r)[p] == m[p],
{
    let retain = seq!["strain"@, strain, "retain"@];
    lemma_put_spares(m, retain, DocNode::Table, p);
    let m0 = if m.contains_key(retain) {
        m
    } else {
        put(m, retain, DocNode::Table)
    };
    let m1 = with_tier(m0, strain, "last"@, r.last);
    let m2 = with_tier(m1, strain, "hourly"@, r.hourly);
    let m3 = with_tier(m2, strain, "daily"@, r.daily);
    let m4 = with_tier(m3, strain, "weekly"@, r.weekly);
    let m5 = with_tier(m4, strain, "monthly"@, r.monthly);
    lemma_tier_spares(m0, strain, "last"@, r.last, p);
    lemma_tier_spares(m1, strain, "hourly"@, r.hourly, p);
    lemma_tier_spares(m2, strain, "daily"@, r.daily, p);
    lemma_tier_spares(m3, strain, "weekly"@, r.weekly, p);
    lemma_tier_spares(m4, strain, "monthly"@, r.monthly, p);
    lemma_tier_spares(m5, strain, "yearly"@, r.yearly, p);
}

/// What a document holds at a tier after it was set.
pub open spec fn tier_is(
    m: Map<PathView, DocNode>,
    strain: Seq<char>,
    key: Seq<char>,
    n: usize,
) -> bool {
    if n == 0 {
        !m.contains_key(tier_path(strain, key))
    } else {
        m.contains_key(tier_path(strain, key)) && m[tier_path(strain, key)] == DocNode::Number(
            if n <= i64::MAX {
                n as int
            } else {
                i64::MAX as int
            },
        )
    }
}

proof fn lemma_tier_set(m: Map<PathView, DocNode>, strain: Seq<char>, key: Seq<char>, n: usize)
    ensures
        tier_is(with_tier(m, strain, key, n), strain, key, n),
        forall|k: Seq<char>, x: usize|
            k != key && #[trigger] tier_is(m, strain, k, x) ==> tier_is(
                with_tier(m, strain, key, n),
                strain,
                k,
                x,
            ),
{
    let p = tier_path(strain, key);
    assert(p.take(p.len() as int) =~= p);
    assert(within(p, p));
    assert forall|k: Seq<char>, x: usize|
        k != key && #[trigger] tier_is(m, strain, k, x) implies tier_is(
        with_tier(m, strain, key, n),
        strain,
        k,
        x,
    ) by {
        lemma_tiers_apart(strain, k, key);
        assert(tier_path(strain, k)[3] != p[3]);
    }
}

/// After a strain's retention was set, each tier has its value, and those of
/// value 0 are gone.
pub proof fn law_edit_sets_all_tiers(
    m: Map<PathView, DocNode>,
    strain: Seq<char>,
    r: RetainConfig,
)
    requires
        edit_fault(m, strain) is None,
    ensures
        tier_is(with_retention(m, strain, r), strain, "last"@, r.last),
        tier_is(with_retention(m, strain, r), strain, "hourly"@, r.hourly),
        tier_is(with_retention(m, strain, r), strain, "daily"@, r.daily),
        tier_is(with_retention(m, strain, r), strain, "weekly"@, r.weekly),
        tier_is(with_retention(m, strain, r), strain, "monthly"@, r.monthly),
        tier_is(with_retention(m, strain, r), strain, "yearly"@, r.yearly),
{
    let retain = seq!["strain"@, strain, "retain"@];
    let m0 = if m.contains_key(retain) {
        m
    } else {
        put(m, retain, DocNode::Table)
    };
    let m1 = with_tier(m0, strain, "last"@, r.last);
    let m2 = with_tier(m1, strain, "hourly"@, r.hourly);
    let m3 = with_tier(m2, strain, "daily"@, r.daily);
    let m4 = with_tier(m3, strain, "weekly"@, r.weekly);
    let m5 = with_tier(m4, strain, "monthly"@, r.monthly);
    lemma_tier_names();
    lemma_tier_set(m0, strain, "last"@, r.last);
    lemma_tier_set(m1, strain, "hourly"@, r.hourly);
    lemma_tier_set(m2, strain, "daily"@, r.daily);
    lemma_tier_set(m3, strain, "weekly"@, r.weekly);
    lemma_tier_set(m4, strain, "monthly"@, r.monthly);
    lemma_tier_set(m5, strain, "yearly"@, r.yearly);
}

/// What is written is read back: in the text with a strain's retention set,
/// each tier reads as its value, those of value 0 are gone, and every other
/// value reads as before.
pub proof fn law_edit_reads_back(
    m: Map<PathView, DocNode>,
    read: Map<PathView, DocNode>,
    strain: Seq<char>,
    r: RetainConfig,
)
    requires
        edit_fault(m, strain) is None,
        same_values(read, with_retention(m, strain, r)),
    ensures
        tier_is(read, strain, "last"@, r.last),
        tier_is(read, strain, "hourly"@, r.hourly),
        tier_is(read, strain, "daily"@, r.daily),
        tier_is(read, strain, "weekly"@, r.weekly),
        tier_is(read, strain, "monthly"@, r.monthly),
        tier_is(read, strain, "yearly"@, r.yearly),
        forall|p: PathView|
            !within(p, seq!["strain"@, strain, "retain"@]) && m.contains_key(p) && !(m[p] is Table)
                ==> #[trigger] read.contains_key(p) && read[p] == m[p],
        forall|p: PathView|
            !within(p, seq!["strain"@, strain, "retain"@]) && #[trigger] read.contains_key(p)
                ==> m.contains_key(p) && read[p] == m[p],
{
    let w = with_retention(m, strain, r);
    law_edit_sets_all_tiers(m, strain, r);
    lemma_tier_reads(read, w, strain, "last"@, r.last);
    lemma_tier_reads(read, w, strain, "hourly"@, r.hourly);
    lemma_tier_reads(read, w, strain, "daily"@, r.daily);
    lemma_tier_reads(read, w, strain, "weekly"@, r.weekly);
    lemma_tier_reads(read, w, strain, "monthly"@, r.monthly);
    lemma_tier_reads(read, w, strain, "yearly"@, r.yearly);
    assert forall|p: PathView|
        !within(p, seq!["strain"@, strain, "retain"@]) && m.contains_key(p) && !(m[p]
            is Table) implies #[trigger] read.contains_key(p) && read[p] == m[p] by {
        law_edit_spares_the_rest(m, strain, r, p);
        crate::path::lemma_within_self(p, p);
        assert(w.contains_key(p));
    }
    assert forall|p: PathView|
        !within(p, seq!["strain"@, strain, "retain"@]) && #[trigger] read.contains_key(
            p,
        ) implies m.contains_key(p) && read[p] == m[p] by {
        law_edit_spares_the_rest(m, strain, r, p);
    }
}

proof fn lemma_tier_reads(
    read: Map<PathView, DocNode>,
    w: Map<PathView, DocNode>,
    strain: Seq<char>,
    key: Seq<char>,
    n: usize,
)
    requires
        same_values(read, w),
        tier_is(w, strain, key, n),
    ensures
        tier_is(read, strain, key, n),
{
    let p = tier_path(strain, key);
    crate::path::lemma_within_self(p, p);
    if n > 0 {
        assert(w.contains_key(p));
    }
}

proof fn lemma_tier_names()
    ensures
        "last"@ != "hourly"@,
        "last"@ != "daily"@,
        "last"@ != "weekly"@,
        "last"@ != "monthly"@,
        "last"@ != "yearly"@,
        "hourly"@ != "daily"@,
        "hourly"@ != "weekly"@,
        "hourly"@ != "monthly"@,
        "hourly"@ != "yearly"@,
        "daily"@ != "weekly"@,
        "daily"@ != "monthly"@,
        "daily"@ != "yearly"@,
        "weekly"@ != "monthly"@,
        "weekly"@ != "yearly"@,
        "monthly"@ != "yearly"@,
{
    reveal_strlit("last");
    reveal_strlit("hourly");
    reveal_strlit("daily");
    reveal_strlit("weekly");
    reveal_strlit("monthly");
    reveal_strlit("yearly");
    assert("last"@[0] == 'l' && "hourly"@[0] == 'h' && "daily"@[0] == 'd' && "weekly"@[0] == 'w'
        && "monthly"@[0] == 'm' && "yearly"@[0] == 'y');
}

} // verus!
