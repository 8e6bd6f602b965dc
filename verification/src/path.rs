//! Filesystem paths as sequences of components.
//!
//! An absolute path has `/` as its first component. Empty components and `.`
//! are dropped, so that equal paths have equal components.

use vstd::prelude::*;
use vstd::string::*;

use crate::text::{
    text_less, cat2, chars_of, clone_texts, join_texts, joined, lemma_split_first_none,
    lemma_views_push, same_text, split_first, split_once, views,
};

verus! {

/// The components of a path.
pub type PathView = Seq<Seq<char>>;

/// A path.
#[derive(Debug, PartialEq, Eq, PartialOrd, Ord, Hash)]
pub struct FsPath {
    /// The components.
    pub parts: Vec<String>,
}

impl View for FsPath {
    type V = PathView;

    open spec fn view(&self) -> PathView {
        views(self.parts@)
    }
}

impl Clone for FsPath {
    fn clone(&self) -> (r: Self)
        ensures
            r@ == self@,
    {
        FsPath { parts: clone_texts(&self.parts) }
    }
}

/// The component that a piece of a path's text gives, if any.
pub open spec fn piece(s: Seq<char>) -> PathView {
    if s.len() == 0 || s == "."@ {
        Seq::empty()
    } else {
        seq![s]
    }
}

/// The components of the pieces of a text between slashes.
pub open spec fn pieces(s: Seq<char>) -> PathView
    decreases s.len(),
{
    match split_first(s, '/') {
        Some((a, b)) => if b.len() < s.len() {
            piece(a) + pieces(b)
        } else {
            Seq::empty()
        },
        None => piece(s),
    }
}

/// Whether a path's text is absolute.
pub open spec fn is_absolute(s: Seq<char>) -> bool {
    s.len() > 0 && s[0] == '/'
}

/// The components of a path's text.
pub open spec fn path_of(s: Seq<char>) -> PathView {
    if is_absolute(s) {
        seq!["/"@] + pieces(s)
    } else {
        pieces(s)
    }
}

/// The path `s` seen from `base`.
pub open spec fn path_join(base: PathView, s: Seq<char>) -> PathView {
    if is_absolute(s) {
        path_of(s)
    } else {
        base + pieces(s)
    }
}

/// Whether `s` is one component: not empty, not `.`, and without a slash.
pub open spec fn is_component(s: Seq<char>) -> bool {
    &&& s.len() > 0
    &&& s != "."@
    &&& forall|i: int| 0 <= i < s.len() ==> s[i] != '/'
}

/// Joining a single component appends it.
pub broadcast proof fn lemma_join_component(base: PathView, s: Seq<char>)
    requires
        is_component(s),
    ensures
        #[trigger] path_join(base, s) == base.push(s),
{
    lemma_split_first_none(s, '/');
    assert(base + seq![s] =~= base.push(s));
}

/// Whether `p` lies strictly inside `base`.
pub open spec fn under(p: PathView, base: PathView) -> bool {
    base.len() < p.len() && p.take(base.len() as int) == base
}

/// Whether `p` is `base` or lies inside it.
pub open spec fn within(p: PathView, base: PathView) -> bool {
    base.len() <= p.len() && p.take(base.len() as int) == base
}

/// Whether `p` is a direct child of `base`.
pub open spec fn is_child(p: PathView, base: PathView) -> bool {
    base.len() + 1 == p.len() && p.take(base.len() as int) == base
}

/// Where `p` inside `from` comes to lie when `from` is moved to `to`.
pub open spec fn moved(p: PathView, from: PathView, to: PathView) -> PathView {
    to + p.skip(from.len() as int)
}

/// Moving and moving back changes nothing.
pub proof fn lemma_moved_back(p: PathView, from: PathView, to: PathView)
    requires
        within(p, from),
    ensures
        within(moved(p, from, to), to),
        moved(moved(p, from, to), to, from) == p,
        under(p, from) <==> under(moved(p, from, to), to),
{
    let q = moved(p, from, to);
    assert(q.take(to.len() as int) =~= to);
    assert(q.skip(to.len() as int) =~= p.skip(from.len() as int));
    assert(from + p.skip(from.len() as int) =~= p);
}

/// Inclusion of paths is transitive.
pub proof fn lemma_within_trans(p: PathView, q: PathView, r: PathView)
    requires
        within(p, q),
        within(q, r),
    ensures
        within(p, r),
        under(p, q) || under(q, r) ==> under(p, r),
{
    assert(p.take(r.len() as int) =~= p.take(q.len() as int).take(r.len() as int));
}

/// Two paths that hold a third are comparable.
pub proof fn lemma_within_comparable(p: PathView, q: PathView, r: PathView)
    requires
        within(p, q),
        within(p, r),
    ensures
        within(q, r) || within(r, q),
{
    if q.len() <= r.len() {
        assert(r.take(q.len() as int) =~= p.take(q.len() as int));
    } else {
        assert(q.take(r.len() as int) =~= p.take(r.len() as int));
    }
}

/// A path is within itself; within both ways is equality.
pub proof fn lemma_within_self(p: PathView, q: PathView)
    ensures
        within(p, p),
        !under(p, p),
        within(p, q) && within(q, p) ==> p == q,
        within(p, q) <==> (p == q || under(p, q)),
{
    assert(p.take(p.len() as int) =~= p);
    assert(q.take(q.len() as int) =~= q);
}

/// Moving keeps inclusion.
pub proof fn lemma_moved_within(p: PathView, q: PathView, from: PathView, to: PathView)
    requires
        within(p, from),
        within(q, from),
    ensures
        within(p, q) <==> within(moved(p, from, to), moved(q, from, to)),
        under(p, q) <==> under(moved(p, from, to), moved(q, from, to)),
        p == q <==> moved(p, from, to) == moved(q, from, to),
{
    let (a, b) = (moved(p, from, to), moved(q, from, to));
    let (n, m) = (from.len() as int, to.len() as int);
    lemma_moved_back(p, from, to);
    lemma_moved_back(q, from, to);
    if q.len() <= p.len() {
        let k = q.len() - n;
        assert(p =~= from + p.skip(n));
        assert(q =~= from + q.skip(n));
        assert(p.take(q.len() as int) =~= from + p.skip(n).take(k));
        assert(a.take(b.len() as int) =~= to + p.skip(n).take(k));
        if p.take(q.len() as int) == q {
            assert(p.take(q.len() as int).skip(n) =~= p.skip(n).take(k));
            assert(a.take(b.len() as int) =~= b);
        }
        if a.take(b.len() as int) == b {
            assert(a.take(b.len() as int).skip(m) =~= p.skip(n).take(k));
            assert(b.skip(m) =~= q.skip(n));
            assert(p.take(q.len() as int) =~= q);
        }
    }
}

/// The last component of a path, if it names an entry of a directory.
pub open spec fn file_name_of(p: PathView) -> Option<Seq<char>> {
    if p.len() == 0 || p.last() == "/"@ || p.last() == ".."@ {
        None
    } else {
        Some(p.last())
    }
}

/// The path without its last component, if it has one besides the root.
pub open spec fn parent_of(p: PathView) -> Option<PathView> {
    if p.len() == 0 || p.last() == "/"@ {
        None
    } else {
        Some(p.drop_last())
    }
}

/// The text of a path.
pub open spec fn path_text(p: PathView) -> Seq<char> {
    if p.len() > 0 && p[0] == "/"@ {
        "/"@ + joined(p.skip(1), "/"@)
    } else {
        joined(p, "/"@)
    }
}

fn push_piece(out: &mut Vec<String>, s: String)
    ensures
        views(final(out)@) == views(old(out)@) + piece(s@),
{
    if s.as_str().is_empty() || same_text(s.as_str(), ".") {
        proof {
            assert(views(out@) + piece(s@) =~= views(out@));
        }
    } else {
        proof {
            lemma_views_push(out@, s);
            assert(views(out@) + piece(s@) =~= views(out@).push(s@));
        }
        out.push(s);
    }
}

proof fn lemma_split_shrinks(s: Seq<char>, c: char)
    ensures
        split_first(s, c) matches Some((a, b)) ==> a.len() + b.len() + 1 == s.len(),
    decreases s.len(),
{
    if s.len() > 0 {
        lemma_split_shrinks(s.skip(1), c);
    }
}

fn push_pieces(out: &mut Vec<String>, s: &str)
    ensures
        views(final(out)@) == views(old(out)@) + pieces(s@),
{
    let mut rest: String = s.to_owned();
    proof {
        assert(views(out@) + pieces(s@) =~= views(old(out)@) + pieces(s@));
    }
    loop
        invariant
            views(out@) + pieces(rest@) == views(old(out)@) + pieces(s@),
        decreases rest@.len(),
    {
        proof {
            lemma_split_shrinks(rest@, '/');
        }
        match split_once(rest.as_str(), '/') {
            Some((a, b)) => {
                proof {
                    assert(views(out@) + piece(a@) + pieces(b@) =~= views(out@) + (piece(a@)
                        + pieces(b@)));
                }
                push_piece(out, a);
                rest = b;
            },
            None => {
                push_piece(out, rest);
                return;
            },
        }
    }
}

fn starts_at_root(s: &str) -> (r: bool)
    ensures
        r == is_absolute(s@),
{
    let v = chars_of(s);
    v.len() > 0 && v[0] == '/'
}

/// Whether `a` comes before `b`: by the first component in which they differ,
/// and a path before what lies inside it.
pub open spec fn path_less(a: PathView, b: PathView) -> bool
    decreases b.len(),
{
    if b.len() == 0 {
        false
    } else if a.len() == 0 {
        true
    } else if a[0] == b[0] {
        path_less(a.skip(1), b.skip(1))
    } else {
        text_less(a[0], b[0])
    }
}

/// No path comes before itself.
pub proof fn lemma_path_less_irreflexive(a: PathView)
    ensures
        !path_less(a, a),
    decreases a.len(),
{
    if a.len() > 0 {
        lemma_path_less_irreflexive(a.skip(1));
    }
}

pub proof fn lemma_path_less_total(a: PathView, b: PathView)
    ensures
        path_less(a, b) || path_less(b, a) || a == b,
    decreases b.len(),
{
    if a.len() > 0 && b.len() > 0 {
        if a[0] == b[0] {
            lemma_path_less_total(a.skip(1), b.skip(1));
            if a.skip(1) == b.skip(1) {
                assert(seq![a[0]] + a.skip(1) =~= a);
                assert(seq![b[0]] + b.skip(1) =~= b);
            }
        } else {
            crate::text::lemma_text_less_total(a[0], b[0]);
        }
    } else if a.len() == 0 && b.len() == 0 {
        assert(a =~= b);
    }
}

pub proof fn lemma_path_less_transitive(a: PathView, b: PathView, c: PathView)
    requires
        path_less(a, b),
        path_less(b, c),
    ensures
        path_less(a, c),
    decreases c.len(),
{
    if a.len() > 0 {
        if a[0] == b[0] && b[0] == c[0] {
            lemma_path_less_transitive(a.skip(1), b.skip(1), c.skip(1));
        } else if a[0] != b[0] && b[0] != c[0] {
            crate::text::lemma_text_less_transitive(a[0], b[0], c[0]);
            crate::text::lemma_text_less_irreflexive(a[0]);
        }
    }
}

impl FsPath {
    /// The path with the given text.
    pub fn new(s: &str) -> (r: FsPath)
        ensures
            r@ == path_of(s@),
    {
        let mut parts: Vec<String> = Vec::new();
        proof {
            assert(views(parts@) =~= Seq::empty());
        }
        if starts_at_root(s) {
            let root: String = "/".to_owned();
            proof {
                lemma_views_push(parts@, root);
                assert(views(parts@).push("/"@) =~= seq!["/"@]);
            }
            parts.push(root);
        } else {
            proof {
                assert(views(parts@) + pieces(s@) =~= pieces(s@));
            }
        }
        push_pieces(&mut parts, s);
        FsPath { parts }
    }

    /// The path `s` seen from `self`.
    pub fn join(&self, s: &str) -> (r: FsPath)
        ensures
            r@ == path_join(self@, s@),
    {
        if starts_at_root(s) {
            FsPath::new(s)
        } else {
            let mut parts = clone_texts(&self.parts);
            push_pieces(&mut parts, s);
            FsPath { parts }
        }
    }

    /// The direct child with the given name.
    pub fn child(&self, name: &str) -> (r: FsPath)
        ensures
            r@ == self@.push(name@),
    {
        let mut parts = clone_texts(&self.parts);
        let item: String = name.to_owned();
        proof {
            lemma_views_push(parts@, item);
        }
        parts.push(item);
        FsPath { parts }
    }

    /// Whether this path comes before `other`.
    pub fn precedes(&self, other: &FsPath) -> (r: bool)
        ensures
            r == path_less(self@, other@),
    {
        let ghost a = self@;
        let ghost b = other@;
        let mut i: usize = 0;
        proof {
            assert(a.skip(0) =~= a);
            assert(b.skip(0) =~= b);
        }
        while i < self.parts.len() && i < other.parts.len()
            invariant
                i <= self.parts.len(),
                i <= other.parts.len(),
                a == self@,
                b == other@,
                path_less(a, b) == path_less(a.skip(i as int), b.skip(i as int)),
            decreases self.parts.len() - i,
        {
            let x = self.parts[i].as_str();
            let y = other.parts[i].as_str();
            proof {
                assert(a.skip(i as int)[0] == x@);
                assert(b.skip(i as int)[0] == y@);
                assert(a.skip(i as int).skip(1) =~= a.skip(i + 1));
                assert(b.skip(i as int).skip(1) =~= b.skip(i + 1));
            }
            if !crate::text::same_text(x, y) {
                return crate::text::precedes(x, y);
            }
            i = i + 1;
        }
        i < other.parts.len()
    }

    /// Whether both paths are the same.
    pub fn same(&self, other: &FsPath) -> (r: bool)
        ensures
            r == (self@ == other@),
    {
        if self.parts.len() != other.parts.len() {
            assert(self@.len() != other@.len());
            return false;
        }
        let r: bool = self.is_within(other);
        proof {
            lemma_within_self(self@, other@);
            assert(self@.take(other@.len() as int) =~= self@);
        }
        r
    }

    /// Whether the path is `base` or lies inside it.
    pub fn is_within(&self, base: &FsPath) -> (r: bool)
        ensures
            r == within(self@, base@),
    {
        if base.parts.len() > self.parts.len() {
            return false;
        }
        let mut i: usize = 0;
        while i < base.parts.len()
            invariant
                i <= base.parts.len() <= self.parts.len(),
                self@.take(i as int) == base@.take(i as int),
            decreases base.parts.len() - i,
        {
            if !same_text(self.parts[i].as_str(), base.parts[i].as_str()) {
                proof {
                    assert(self@.take(base@.len() as int)[i as int] == self.parts@[i as int]@);
                    assert(base@[i as int] == base.parts@[i as int]@);
                }
                return false;
            }
            proof {
                assert(self@.take(i + 1) =~= self@.take(i as int).push(self@[i as int]));
                assert(base@.take(i + 1) =~= base@.take(i as int).push(base@[i as int]));
            }
            i = i + 1;
        }
        proof {
            assert(base@.take(base@.len() as int) =~= base@);
        }
        true
    }

    /// Whether the path lies strictly inside `base`.
    pub fn is_under(&self, base: &FsPath) -> (r: bool)
        ensures
            r == under(self@, base@),
    {
        self.parts.len() > base.parts.len() && self.is_within(base)
    }

    /// Whether the path is a direct child of `base`.
    pub fn is_child_of(&self, base: &FsPath) -> (r: bool)
        ensures
            r == is_child(self@, base@),
    {
        self.parts.len() > 0 && self.parts.len() - 1 == base.parts.len() && self.is_within(base)
    }

    /// Where the path comes to lie when `from`, which holds it, is moved to
    /// `to`.
    pub fn rebase(&self, from: &FsPath, to: &FsPath) -> (r: FsPath)
        requires
            within(self@, from@),
        ensures
            r@ == moved(self@, from@, to@),
    {
        let mut parts = clone_texts(&to.parts);
        let mut i: usize = from.parts.len();
        let ghost n = from.parts@.len() as int;
        proof {
            assert(to@ + self@.subrange(n, n) =~= to@);
        }
        while i < self.parts.len()
            invariant
                n == from.parts@.len(),
                n <= i <= self.parts.len(),
                views(parts@) == to@ + self@.subrange(n, i as int),
            decreases self.parts.len() - i,
        {
            let item: String = self.parts[i].clone();
            proof {
                lemma_views_push(parts@, item);
                assert(to@ + self@.subrange(n, i + 1) =~= (to@ + self@.subrange(n, i as int)).push(
                    self@[i as int],
                ));
            }
            parts.push(item);
            i = i + 1;
        }
        proof {
            assert(self@.subrange(n, self@.len() as int) =~= self@.skip(n));
        }
        FsPath { parts }
    }

    /// The last component, if it names an entry of a directory.
    pub fn file_name(&self) -> (r: Option<&str>)
        ensures
            crate::text::opt_str(r) == file_name_of(self@),
    {
        let n: usize = self.parts.len();
        if n == 0 {
            return None;
        }
        let last = self.parts[n - 1].as_str();
        assert(self@.last() == last@);
        if same_text(last, "/") || same_text(last, "..") {
            None
        } else {
            Some(last)
        }
    }

    /// The path without its last component, if it has one besides the root.
    pub fn parent(&self) -> (r: Option<FsPath>)
        ensures
            match r {
                Some(p) => parent_of(self@) == Some(p@),
                None => parent_of(self@) is None,
            },
    {
        let n: usize = self.parts.len();
        if n == 0 {
            return None;
        }
        assert(self@.last() == self.parts@[n - 1]@);
        if same_text(self.parts[n - 1].as_str(), "/") {
            return None;
        }
        let mut parts = clone_texts(&self.parts);
        proof {
            assert(views(parts@).len() == n);
            assert(views(parts@.drop_last()) =~= views(parts@).drop_last());
        }
        let _ = parts.pop();
        Some(FsPath { parts })
    }

    /// The text of the path.
    pub fn display(&self) -> (r: String)
        ensures
            r@ == path_text(self@),
    {
        if self.parts.len() > 0 && same_text(self.parts[0].as_str(), "/") {
            let mut rest: Vec<String> = Vec::new();
            let mut i: usize = 1;
            proof {
                assert(self@[0] == self.parts@[0]@);
                assert(views(rest@) =~= self@.subrange(1, 1));
            }
            while i < self.parts.len()
                invariant
                    1 <= i <= self.parts.len(),
                    views(rest@) == self@.subrange(1, i as int),
                decreases self.parts.len() - i,
            {
                let item: String = self.parts[i].clone();
                proof {
                    lemma_views_push(rest@, item);
                    assert(self@.subrange(1, i + 1) =~= self@.subrange(1, i as int).push(
                        self@[i as int],
                    ));
                }
                rest.push(item);
                i = i + 1;
            }
            proof {
                assert(self@.subrange(1, self@.len() as int) =~= self@.skip(1));
            }
            cat2("/", join_texts(&rest, "/").as_str())
        } else {
            proof {
                if self@.len() > 0 {
                    assert(self@[0] == self.parts@[0]@);
                }
            }
            join_texts(&self.parts, "/")
        }
    }
}

} // verus!
