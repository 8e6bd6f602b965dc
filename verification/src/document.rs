//! TOML documents as plain trees.

use vstd::prelude::*;
use vstd::string::*;

use crate::assoc::{distinct_keys, lemma_lookup_at, lemma_lookup_none, lookup};
use crate::snapshot::id::is_token;
use crate::text::{same_text, views};

verus! {

/// A value of a TOML document.
#[derive(Debug)]
pub enum TomlValue {
    Text(String),
    Integer(i64),
    Boolean(bool),
    Array(Vec<TomlValue>),
    Table(Vec<TomlEntry>),
    Float,
    Date,
}

/// A key of a TOML table and its value.
#[derive(Debug)]
pub struct TomlEntry {
    pub key: String,
    pub value: TomlValue,
}

/// A TOML value with its texts.
pub enum Toml {
    Text(Seq<char>),
    Integer(int),
    Boolean(bool),
    Array(Seq<Toml>),
    Table(Seq<(Seq<char>, Toml)>),
    Float,
    Date,
}

/// The tree of a value.
pub open spec fn tree(v: TomlValue) -> Toml
    decreases v, 0nat,
{
    match v {
        TomlValue::Text(s) => Toml::Text(s@),
        TomlValue::Integer(i) => Toml::Integer(i as int),
        TomlValue::Boolean(b) => Toml::Boolean(b),
        TomlValue::Array(a) => Toml::Array(trees(a, a.len() as nat)),
        TomlValue::Table(t) => Toml::Table(entries(t, t.len() as nat)),
        TomlValue::Float => Toml::Float,
        TomlValue::Date => Toml::Date,
    }
}

/// The trees of the first `n` values of an array.
pub open spec fn trees(a: Vec<TomlValue>, n: nat) -> Seq<Toml>
    decreases a, n,
{
    if n == 0 || n > a.len() {
        Seq::empty()
    } else {
        trees(a, (n - 1) as nat).push(tree(a[n - 1]))
    }
}

/// The keys and trees of the first `n` entries of a table.
pub open spec fn entries(t: Vec<TomlEntry>, n: nat) -> Seq<(Seq<char>, Toml)>
    decreases t, n,
{
    if n == 0 || n > t.len() {
        Seq::empty()
    } else {
        entries(t, (n - 1) as nat).push((t[n - 1].key@, tree(t[n - 1].value)))
    }
}

/// The keys and trees of a table.
pub open spec fn table(t: Vec<TomlEntry>) -> Seq<(Seq<char>, Toml)> {
    entries(t, t.len() as nat)
}

pub proof fn lemma_trees(a: Vec<TomlValue>, n: nat)
    requires
        n <= a.len(),
    ensures
        trees(a, n).len() == n,
        forall|i: int| 0 <= i < n ==> #[trigger] trees(a, n)[i] == tree(a[i]),
    decreases n,
{
    if n > 0 {
        lemma_trees(a, (n - 1) as nat);
    }
}

pub proof fn lemma_entries(t: Vec<TomlEntry>, n: nat)
    requires
        n <= t.len(),
    ensures
        entries(t, n).len() == n,
        forall|i: int|
            0 <= i < n ==> #[trigger] entries(t, n)[i] == (t[i].key@, tree(t[i].value)),
    decreases n,
{
    if n > 0 {
        lemma_entries(t, (n - 1) as nat);
    }
}

/// A key and the value under it.
#[derive(Debug)]
pub struct Field<'a> {
    pub key: &'a str,
    pub value: &'a TomlValue,
}

/// The keys and trees of some fields.
pub open spec fn field_trees<'a>(v: Seq<Field<'a>>) -> Seq<(Seq<char>, Toml)> {
    Seq::new(v.len(), |i: int| (v[i].key@, tree(*v[i].value)))
}

/// The texts of some names.
pub open spec fn name_views<'a>(v: Seq<&'a str>) -> Seq<Seq<char>> {
    Seq::new(v.len(), |i: int| v[i]@)
}

/// The fields that a value gives to a record whose fields have, in this order,
/// the given names. A table gives them by name and an array by their order,
/// where what is left over is ignored. A date is a table with no such name.
pub open spec fn fields_of(v: Toml, names: Seq<Seq<char>>) -> Option<Seq<(Seq<char>, Toml)>> {
    match v {
        Toml::Table(t) => Some(t),
        Toml::Array(a) => Some(
            Seq::new(
                if a.len() <= names.len() {
                    a.len()
                } else {
                    names.len()
                },
                |i: int| (names[i], a[i]),
            ),
        ),
        Toml::Date => Some(Seq::empty()),
        _ => None,
    }
}

/// The value of the first field with the given key.
pub fn get<'a>(t: &Vec<Field<'a>>, key: &str) -> (r: Option<&'a TomlValue>)
    ensures
        match r {
            Some(v) => lookup(field_trees(t@), key@) == Some(tree(*v)),
            None => lookup(field_trees(t@), key@) is None,
        },
{
    let mut i: usize = 0;
    while i < t.len()
        invariant
            i <= t.len(),
            forall|j: int| 0 <= j < i ==> (#[trigger] field_trees(t@)[j]).0 != key@,
        decreases t.len() - i,
    {
        if same_text(t[i].key, key) {
            proof {
                lemma_lookup_at(field_trees(t@), key@, i as int);
            }
            return Some(t[i].value);
        }
        i = i + 1;
    }
    proof {
        lemma_lookup_none(field_trees(t@), key@);
    }
    None
}

/// The entries of a table as fields.
pub fn table_fields<'a>(t: &'a Vec<TomlEntry>) -> (r: Vec<Field<'a>>)
    ensures
        field_trees(r@) == table(*t),
{
    let mut out: Vec<Field<'a>> = Vec::new();
    let mut i: usize = 0;
    while i < t.len()
        invariant
            i <= t.len(),
            out.len() == i,
            forall|j: int|
                0 <= j < i ==> (#[trigger] out[j]).key@ == t[j].key@ && *out[j].value
                    == t[j].value,
        decreases t.len() - i,
    {
        out.push(Field { key: t[i].key.as_str(), value: &t[i].value });
        i = i + 1;
    }
    proof {
        lemma_entries(*t, t.len() as nat);
        assert(field_trees(out@) =~= table(*t));
    }
    out
}

/// The fields that a value gives to a record with the given names.
pub fn record_fields<'a>(v: &'a TomlValue, names: &Vec<&'static str>) -> (r: Option<
    Vec<Field<'a>>,
>)
    ensures
        match r {
            Some(t) => fields_of(tree(*v), name_views(names@)) == Some(field_trees(t@)),
            None => fields_of(tree(*v), name_views(names@)) is None,
        },
{
    match v {
        TomlValue::Table(t) => Some(table_fields(t)),
        TomlValue::Array(a) => {
            let mut out: Vec<Field<'a>> = Vec::new();
            let mut i: usize = 0;
            while i < a.len() && i < names.len()
                invariant
                    i <= a.len(),
                    i <= names.len(),
                    out.len() == i,
                    forall|j: int|
                        0 <= j < i ==> (#[trigger] out[j]).key@ == names[j]@ && *out[j].value
                            == a[j],
                decreases a.len() - i,
            {
                out.push(Field { key: names[i], value: &a[i] });
                i = i + 1;
            }
            proof {
                lemma_trees(*a, a.len() as nat);
                assert(field_trees(out@) =~= fields_of(tree(*v), name_views(names@))->Some_0);
            }
            Some(out)
        },
        TomlValue::Date => {
            let out: Vec<Field<'a>> = Vec::new();
            assert(field_trees(out@) =~= Seq::empty());
            Some(out)
        },
        _ => None,
    }
}

/// `toml::Value`, a value of a TOML document.
#[verifier::external_type_specification]
#[verifier::external_body]
pub struct ExTomlValue(toml::Value);

/// Turns a `toml::Value` into a tree, variant by variant.
#[verifier::external_body]
fn plain_value(v: toml::Value) -> (r: TomlValue) {
    match v {
        toml::Value::String(s) => TomlValue::Text(s),
        toml::Value::Integer(i) => TomlValue::Integer(i),
        toml::Value::Boolean(b) => TomlValue::Boolean(b),
        toml::Value::Float(_) => TomlValue::Float,
        toml::Value::Datetime(_) => TomlValue::Date,
        toml::Value::Array(a) => TomlValue::Array(a.into_iter().map(plain_value).collect()),
        toml::Value::Table(t) => TomlValue::Table(
            t.into_iter().map(|(key, v)| TomlEntry { key, value: plain_value(v) }).collect(),
        ),
    }
}

/// What the `toml` crate reads from a text: a table, or an error message.
pub uninterp spec fn toml_document(s: Seq<char>) -> Result<Seq<(Seq<char>, Toml)>, Seq<char>>;

/// Calls `toml::from_str` for a table. The outcome is named.
#[verifier::external_body]
pub(crate) fn parse_toml(s: &str) -> (r: Result<Vec<TomlEntry>, String>)
    ensures
        match r {
            Ok(t) => toml_document(s@) is Ok && toml_document(s@)->Ok_0 == table(t),
            Err(m) => toml_document(s@) is Err && toml_document(s@)->Err_0 == m@,
        },
{
    match toml::from_str::<toml::Table>(s) {
        Ok(t) => Ok(
            t.into_iter().map(|(key, v)| TomlEntry { key, value: plain_value(v) }).collect(),
        ),
        Err(e) => Err(e.to_string()),
    }
}

/// Whether a value is a text, a number, a truth value, or a non-empty array of
/// texts.
pub open spec fn is_plain(v: Toml) -> bool {
    match v {
        Toml::Text(_) => true,
        Toml::Integer(_) => true,
        Toml::Boolean(_) => true,
        Toml::Array(a) => a.len() > 0 && forall|i: int|
            0 <= i < a.len() ==> (#[trigger] a[i]) is Text,
        Toml::Table(_) => false,
        Toml::Float => false,
        Toml::Date => false,
    }
}

/// Whether a table holds, under distinct keys of letters, digits and `_`,
/// plain values first and then tables of the same make, none of them empty,
/// which nest at most `depth` deep.
pub open spec fn is_regular(t: Seq<(Seq<char>, Toml)>, depth: nat) -> bool
    decreases depth,
{
    &&& distinct_keys(t)
    &&& forall|i: int|
        0 <= i < t.len() ==> is_token((#[trigger] t[i]).0) && (is_plain(t[i].1) || (depth > 0
            && t[i].1 is Table && t[i].1->Table_0.len() > 0 && is_regular(
            t[i].1->Table_0,
            (depth - 1) as nat,
        )))
    &&& forall|i: int, j: int|
        0 <= i < j < t.len() && (#[trigger] t[i]).1 is Table ==> (#[trigger] t[j]).1 is Table
}

/// The depth to which the documents of this library nest tables.
pub open spec fn usual_depth() -> nat {
    3
}

/// Whether a text is made of comments and blank lines.
pub open spec fn is_comment_block(h: Seq<char>) -> bool {
    &&& h.len() > 0 ==> h.last() == '\n'
    &&& forall|i: int|
        0 <= i < h.len() ==> (#[trigger] h[i]) == '\n' || (' ' <= h[i] && h[i] != '\u{7f}')
    &&& forall|i: int|
        0 <= i < h.len() && (i == 0 || h[i - 1] == '\n') ==> (#[trigger] h[i]) == '\n' || h[i]
            == '#'
}

/// Whether reading a text gives a table.
pub open spec fn reads(s: Seq<char>, t: Seq<(Seq<char>, Toml)>) -> bool {
    toml_document(s) is Ok && toml_document(s)->Ok_0 == t
}

/// The shortest run of one quote in a text that the `toml` crate does not
/// count.
pub const QUOTE_RUN: usize = 256;

/// Whether a text holds [`QUOTE_RUN`] times the character `c`, from place `i`
/// on.
pub open spec fn is_run(s: Seq<char>, c: char, i: int) -> bool {
    &&& 0 <= i
    &&& i + QUOTE_RUN <= s.len()
    &&& forall|j: int| i <= j < i + QUOTE_RUN ==> #[trigger] s[j] == c
}

/// Whether no run of one quote, `"` or `'`, in a text is too long to be
/// counted.
pub open spec fn quotes_fit(s: Seq<char>) -> bool {
    &&& forall|i: int| !#[trigger] is_run(s, '"', i)
    &&& forall|i: int| !#[trigger] is_run(s, '\'', i)
}

/// Whether a value can be handed to the `toml` crate: it is made of texts whose
/// quotes can be counted, numbers, truth values, arrays and tables.
pub open spec fn renderable(v: Toml) -> bool
    decreases v,
{
    match v {
        Toml::Text(s) => quotes_fit(s),
        Toml::Integer(_) => true,
        Toml::Boolean(_) => true,
        Toml::Array(a) => forall|i: int| 0 <= i < a.len() ==> renderable(#[trigger] a[i]),
        Toml::Table(t) => forall|i: int| 0 <= i < t.len() ==> renderable((#[trigger] t[i]).1),
        Toml::Float => false,
        Toml::Date => false,
    }
}

/// Whether no run of `c` in a text is as long as [`QUOTE_RUN`].
fn runs_fit(s: &str, c: char) -> (r: bool)
    ensures
        r == forall|i: int| !#[trigger] is_run(s@, c, i),
{
    let n: usize = s.unicode_len();
    let mut i: usize = 0;
    let mut run: usize = 0;
    while i < n
        invariant
            i <= n,
            n == s@.len(),
            run <= i,
            run < QUOTE_RUN,
            forall|j: int| i - run <= j < i ==> #[trigger] s@[j] == c,
            run < i ==> s@[i - run - 1] != c,
            forall|k: int| k + QUOTE_RUN <= i ==> !#[trigger] is_run(s@, c, k),
        decreases n - i,
    {
        if s.get_char(i) == c {
            run = run + 1;
            if run == QUOTE_RUN {
                assert(is_run(s@, c, i + 1 - run));
                return false;
            }
        } else {
            run = 0;
        }
        proof {
            assert forall|k: int| k + QUOTE_RUN <= i + 1 implies !#[trigger] is_run(s@, c, k) by {
                if k + QUOTE_RUN == i + 1 && k >= 0 {
                    assert(s@[i - run] != c);
                }
            }
        }
        i = i + 1;
    }
    true
}

/// Whether the runs of quotes in a text can be counted.
pub(crate) fn text_quotes_fit(s: &str) -> (r: bool)
    ensures
        r == quotes_fit(s@),
{
    runs_fit(s, '"') && runs_fit(s, '\'')
}

/// Whether the runs of quotes in each of some texts can be counted.
pub(crate) fn texts_quotes_fit(v: &Vec<String>) -> (r: bool)
    ensures
        r == all_quotes_fit(views(v@)),
{
    let mut i: usize = 0;
    while i < v.len()
        invariant
            i <= v.len(),
            forall|j: int| 0 <= j < i ==> quotes_fit(#[trigger] views(v@)[j]),
        decreases v.len() - i,
    {
        assert(views(v@)[i as int] == v[i as int]@);
        if !text_quotes_fit(v[i].as_str()) {
            return false;
        }
        i = i + 1;
    }
    true
}

/// Whether the runs of quotes in each of some texts can be counted.
pub open spec fn all_quotes_fit(v: Seq<Seq<char>>) -> bool {
    forall|i: int| 0 <= i < v.len() ==> quotes_fit(#[trigger] v[i])
}

/// What the `toml` crate writes for a table: a text, or an error message.
pub uninterp spec fn toml_text(t: Seq<(Seq<char>, Toml)>) -> Result<Seq<char>, Seq<char>>;

/// Turns a tree into a `toml::Value`, variant by variant. The precondition
/// leaves out a float or a date, whose value no tree holds.
#[verifier::external_body]
fn crate_value(v: &TomlValue) -> (r: toml::Value)
    requires
        renderable(tree(*v)),
{
    match v {
        TomlValue::Text(s) => toml::Value::String(s.clone()),
        TomlValue::Integer(i) => toml::Value::Integer(*i),
        TomlValue::Boolean(b) => toml::Value::Boolean(*b),
        TomlValue::Float => toml::Value::String(String::new()),
        TomlValue::Date => toml::Value::String(String::new()),
        TomlValue::Array(a) => toml::Value::Array(a.iter().map(crate_value).collect()),
        TomlValue::Table(t) => toml::Value::Table(
            t.iter().map(|e| (e.key.clone(), crate_value(&e.value))).collect(),
        ),
    }
}

/// Calls `toml::to_string_pretty`. The outcome is named; a regular table is
/// written, and reading the text, with comments before it or without, gives
/// the table back. The crate counts a run of quotes in a text in eight bits, so
/// longer runs are left out.
#[verifier::external_body]
pub(crate) fn render_toml(t: &Vec<TomlEntry>) -> (r: Result<String, String>)
    requires
        renderable(Toml::Table(table(*t))),
    ensures
        match r {
            Ok(s) => toml_text(table(*t)) is Ok && toml_text(table(*t))->Ok_0 == s@,
            Err(m) => toml_text(table(*t)) is Err && toml_text(table(*t))->Err_0 == m@,
        },
        is_regular(table(*t), usual_depth()) ==> r is Ok,
        is_regular(table(*t), usual_depth()) ==> reads(r->Ok_0@, table(*t)),
        is_regular(table(*t), usual_depth()) ==> forall|h: Seq<char>| #[trigger]
            is_comment_block(h) ==> reads(h + r->Ok_0@, table(*t)),
{
    let t: toml::Table = t.iter().map(|e| (e.key.clone(), crate_value(&e.value))).collect();
    toml::to_string_pretty(&t).map_err(|e| e.to_string())
}

} // verus!
