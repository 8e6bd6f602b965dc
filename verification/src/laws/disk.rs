//! What the operations on subvolumes do, and how what the disk holds is read.

use vstd::prelude::*;
use vstd::string::*;

use crate::backend::btrfs::ioctl::{
    le_value, max_child, refs_from, rel_path, until_nul, RootRefView,
};
use crate::backend::{with_rename, with_snapshot, with_subvolume, without, FsState, Subvol};
use crate::bootloader::systemd_boot::{entry_id, entry_title, title_in};
use crate::lines::{lines_of, trimmed_text};
use crate::path::{
    is_component, path_join, path_less, path_of, piece, pieces, within, PathView,
};
use crate::snapshot::id::{lemma_split_last_at, lemma_split_last_joins};
use crate::text::{lemma_split_first_at, lemma_split_first_none, split_first, text_less};

verus! {

/// A snapshot of a subvolume is a new subvolume whose parent is the source. It
/// has a file exactly where the source has one of its own: what lies in a
/// subvolume nested in the source is left out. Everything else stays.
pub proof fn law_snapshot_is_a_copy(
    a: FsState,
    source: PathView,
    dest: PathView,
    uuid: u128,
    readonly: bool,
    x: PathView,
    q: PathView,
)
    ensures
        ({
            let b = with_snapshot(a, source, dest, uuid, readonly);
            &&& b.subvols.contains_key(dest)
            &&& b.subvols[dest].uuid == uuid
            &&& b.subvols[dest].parent_uuid == Some(a.subvols[source].uuid)
            &&& b.subvols[dest].readonly == readonly
            &&& q != dest ==> (b.subvols.contains_key(q) <==> a.subvols.contains_key(q))
                && b.subvols[q] == a.subvols[q]
            &&& b.files.contains_key(dest + x) <==> x.len() > 0 && a.files.contains_key(source + x)
                && forall|n: PathView| #[trigger]
                a.subvols.contains_key(n) && n.len() > source.len() && n.take(source.len() as int)
                    == source ==> !(n.len() <= (source + x).len() && (source + x).take(
                    n.len() as int,
                ) == n)
            &&& b.files.contains_key(dest + x) ==> b.files[dest + x] == a.files[source + x]
            &&& !(dest.len() <= q.len() && q.take(dest.len() as int) == dest) ==> (
            b.files.contains_key(q) <==> a.files.contains_key(q)) && (a.files.contains_key(q)
                ==> b.files[q] == a.files[q])
            &&& b.default_subvol == a.default_subvol
        }),
{
    assert((dest + x).take(dest.len() as int) =~= dest);
    assert((dest + x).skip(dest.len() as int) =~= x);
    assert((source + x).take(source.len() as int) =~= source);
}

/// A new subvolume is empty, writable and without a parent, and nothing else
/// changes.
pub proof fn law_new_subvolume(a: FsState, path: PathView, uuid: u128, q: PathView)
    ensures
        ({
            let b = with_subvolume(a, path, uuid);
            &&& b.subvols.contains_key(path)
            &&& b.subvols[path] == (Subvol { uuid, parent_uuid: None, readonly: false })
            &&& q != path ==> (b.subvols.contains_key(q) <==> a.subvols.contains_key(q))
                && b.subvols[q] == a.subvols[q]
            &&& b.files == a.files
            &&& b.default_subvol == a.default_subvol
        }),
{
}

/// A deleted subvolume is gone with every file in it, and what does not lie in
/// it stays as it was.
pub proof fn law_deleted_subvolume(a: FsState, path: PathView, q: PathView)
    ensures
        ({
            let b = without(a, path);
            let inside = path.len() <= q.len() && q.take(path.len() as int) == path;
            &&& inside ==> !b.subvols.contains_key(q) && !b.files.contains_key(q)
            &&& !inside ==> (b.subvols.contains_key(q) <==> a.subvols.contains_key(q)) && (
            b.files.contains_key(q) <==> a.files.contains_key(q))
            &&& b.subvols.contains_key(q) ==> b.subvols[q] == a.subvols[q]
            &&& b.files.contains_key(q) ==> b.files[q] == a.files[q]
            &&& b.default_subvol == a.default_subvol
        }),
{
}

/// Paths are ordered by the first name in which they differ; a directory comes
/// before what is in it.
pub proof fn law_path_order(a: PathView, b: PathView)
    ensures
        path_less(a, b) <==> exists|k: int|
            0 <= k <= a.len() && k <= b.len() && #[trigger] a.take(k) == b.take(k) && (if k
                == a.len() {
                k < b.len()
            } else {
                k < b.len() && a[k] != b[k] && text_less(a[k], b[k])
            }),
    decreases b.len(),
{
    if b.len() == 0 {
    } else if a.len() == 0 {
        assert(a.take(0) =~= b.take(0));
    } else if a[0] == b[0] {
        let (x, y) = (a.skip(1), b.skip(1));
        law_path_order(x, y);
        if path_less(x, y) {
            let k = choose|k: int|
                0 <= k <= x.len() && k <= y.len() && #[trigger] x.take(k) == y.take(k) && (if k
                    == x.len() {
                    k < y.len()
                } else {
                    k < y.len() && x[k] != y[k] && text_less(x[k], y[k])
                });
            assert(a.take(k + 1) =~= seq![a[0]] + x.take(k));
            assert(b.take(k + 1) =~= seq![b[0]] + y.take(k));
            assert(a.take(k + 1) == b.take(k + 1));
        }
        if exists|k: int|
            0 <= k <= a.len() && k <= b.len() && #[trigger] a.take(k) == b.take(k) && (if k
                == a.len() {
                k < b.len()
            } else {
                k < b.len() && a[k] != b[k] && text_less(a[k], b[k])
            }) {
            let k = choose|k: int|
                0 <= k <= a.len() && k <= b.len() && #[trigger] a.take(k) == b.take(k) && (if k
                    == a.len() {
                    k < b.len()
                } else {
                    k < b.len() && a[k] != b[k] && text_less(a[k], b[k])
                });
            assert(k > 0);
            assert(x.take(k - 1) =~= a.take(k).skip(1));
            assert(y.take(k - 1) =~= b.take(k).skip(1));
            assert(x.take(k - 1) == y.take(k - 1));
        }
    } else {
        assert(a.take(0) =~= b.take(0));
        if exists|k: int|
            0 <= k <= a.len() && k <= b.len() && #[trigger] a.take(k) == b.take(k) && (if k
                == a.len() {
                k < b.len()
            } else {
                k < b.len() && a[k] != b[k] && text_less(a[k], b[k])
            }) {
            let k = choose|k: int|
                0 <= k <= a.len() && k <= b.len() && #[trigger] a.take(k) == b.take(k) && (if k
                    == a.len() {
                    k < b.len()
                } else {
                    k < b.len() && a[k] != b[k] && text_less(a[k], b[k])
                });
            if k > 0 {
                assert(a.take(k)[0] == a[0] && b.take(k)[0] == b[0]);
            }
        }
    }
}

/// A file of the entries directory is a boot entry exactly if it is named
/// `<id>.conf` with an ID that is not empty.
pub proof fn law_boot_entry_name(name: Seq<char>, id: Seq<char>)
    ensures
        entry_id(name) == Some(id) <==> id.len() > 0 && name == id + ".conf"@,
{
    reveal_strlit(".conf");
    reveal_strlit("conf");
    assert(".conf"@ =~= seq!['.'] + "conf"@);
    if entry_id(name) == Some(id) {
        lemma_split_last_joins(name, '.');
        assert(name =~= id + ".conf"@);
    }
    if id.len() > 0 && name == id + ".conf"@ {
        let i = id.len() as int;
        assert forall|j: int| i < j < name.len() implies name[j] != '.' by {
            assert(name[j] == ".conf"@[j - i]);
        }
        lemma_split_last_at(name, '.', i);
        assert(name.subrange(0, i) =~= id);
        assert(name.subrange(i + 1, name.len() as int) =~= "conf"@);
    }
}

proof fn lemma_title_in(lines: Seq<Seq<char>>, k: int)
    requires
        0 <= k <= lines.len(),
        forall|j: int|
            0 <= j < k ==> !"title"@.is_prefix_of(trimmed_text(#[trigger] lines[j])),
        k < lines.len() ==> "title"@.is_prefix_of(trimmed_text(lines[k])),
    ensures
        k == lines.len() ==> title_in(lines) is None,
        k < lines.len() ==> title_in(lines) == Some(
            trimmed_text(trimmed_text(lines[k]).skip("title"@.len() as int)),
        ),
    decreases lines.len(),
{
    if lines.len() > 0 {
        if k == 0 {
            let t = trimmed_text(lines[0]);
            assert(t.skip("title"@.len() as int) =~= t.subrange(
                "title"@.len() as int,
                t.len() as int,
            ));
        } else {
            assert(!"title"@.is_prefix_of(trimmed_text(lines[0])));
            let rest = lines.skip(1);
            assert forall|j: int| 0 <= j < k - 1 implies !"title"@.is_prefix_of(
                trimmed_text(#[trigger] rest[j]),
            ) by {
                assert(rest[j] == lines[j + 1]);
            }
            if k < lines.len() {
                assert(rest[k - 1] == lines[k]);
            }
            lemma_title_in(rest, k - 1);
        }
    }
}

/// A boot entry is called what stands behind the first `title` at the start of
/// a line, whatever the space around it, and its ID where no line has one.
pub proof fn law_boot_entry_title(id: Seq<char>, content: Seq<char>, k: int)
    requires
        0 <= k <= lines_of(content).len(),
        forall|j: int|
            0 <= j < k ==> !"title"@.is_prefix_of(trimmed_text(#[trigger] lines_of(content)[j])),
        k < lines_of(content).len() ==> "title"@.is_prefix_of(trimmed_text(lines_of(content)[k])),
    ensures
        k == lines_of(content).len() ==> entry_title(id, content) == id,
        k < lines_of(content).len() ==> entry_title(id, content) == trimmed_text(
            trimmed_text(lines_of(content)[k]).skip(5),
        ),
{
    lemma_title_in(lines_of(content), k);
    reveal_strlit("title");
}

/// Numbers in a search result have their lowest byte first.
pub proof fn law_little_endian(b: Seq<u8>, off: int)
    ensures
        le_value(b, off, 2) == b[off] + 256 * b[off + 1],
        le_value(b, off, 4) == b[off] + 256 * b[off + 1] + 65_536 * b[off + 2] + 16_777_216 * b[off
            + 3],
        le_value(b, off, 8) == le_value(b, off, 4) + 4_294_967_296 * le_value(b, off + 4, 4),
{
    reveal_with_fuel(le_value, 9);
}

proof fn lemma_le_nonnegative(b: Seq<u8>, off: int, n: nat)
    ensures
        le_value(b, off, n) >= 0,
    decreases n,
{
    if n > 0 {
        lemma_le_nonnegative(b, off + 1, (n - 1) as nat);
    }
}

proof fn lemma_le_within(b: Seq<u8>, start: int, end: int, off: int, n: nat)
    requires
        0 <= start <= end <= b.len(),
        0 <= off,
        off + n <= end - start,
    ensures
        le_value(b.subrange(start, end), off, n) == le_value(b, start + off, n),
    decreases n,
{
    if n > 0 {
        lemma_le_within(b, start, end, off + 1, (n - 1) as nat);
    }
}

/// A search result is a row of items, each a header of 32 bytes and its data. An
/// item whose key type is 156 and whose data is long enough is a reference to a
/// child: the child's ID is in the header, the directory and the name are in the
/// data. Any other item is passed over, and the rest is read behind it.
pub proof fn law_search_result(buf: Seq<u8>, off: int, n: nat)
    requires
        n > 0,
        0 <= off,
        off + 32 + le_value(buf, off + 28, 4) <= buf.len(),
    ensures
        ({
            let size = le_value(buf, off + 28, 4);
            let rest = refs_from(buf, off + 32 + size, (n - 1) as nat);
            let got = refs_from(buf, off, n);
            let chars = le_value(buf, off + 48, 2);
            if le_value(buf, off + 24, 4) == 156 && size >= 18 {
                &&& got.len() == rest.len() + 1
                &&& got.skip(1) == rest
                &&& got[0].child_id == le_value(buf, off + 16, 8) as u64
                &&& got[0].dirid == le_value(buf, off + 32, 8) as u64
                &&& 18 + chars <= size ==> got[0].name == buf.subrange(off + 50, off + 50 + chars)
                &&& 18 + chars > size ==> got[0].name == buf.subrange(off + 50, off + 32 + size)
            } else {
                got == rest
            }
        }),
{
    let size = le_value(buf, off + 28, 4);
    lemma_le_nonnegative(buf, off + 28, 4);
    let (start, end) = (off + 32, off + 32 + size);
    let rest = refs_from(buf, end, (n - 1) as nat);
    let got = refs_from(buf, off, n);
    if le_value(buf, off + 24, 4) == 156 && size >= 18 {
        let d = buf.subrange(start, end);
        lemma_le_within(buf, start, end, 0, 8);
        lemma_le_within(buf, start, end, 16, 2);
        lemma_le_nonnegative(buf, off + 48, 2);
        let chars = le_value(buf, off + 48, 2);
        assert(got.skip(1) =~= rest);
        let to = if 18 + chars <= size {
            18 + chars
        } else {
            size
        };
        assert(d.subrange(18, to) =~= buf.subrange(off + 50, off + 32 + to));
    }
}

/// Nothing is read where an item would reach beyond the result, nor once the
/// items are used up.
pub proof fn law_search_end(buf: Seq<u8>, off: int, n: nat)
    ensures
        n == 0 || off + 32 > buf.len() || off + 32 + le_value(buf, off + 28, 4) > buf.len()
            ==> refs_from(buf, off, n).len() == 0,
{
}

/// The search goes on behind the greatest ID seen.
pub proof fn law_greatest_seen(v: Seq<RootRefView>)
    ensures
        v.len() == 0 ==> max_child(v) == -1,
        forall|i: int| 0 <= i < v.len() ==> (#[trigger] v[i]).child_id <= max_child(v),
        v.len() > 0 ==> exists|i: int|
            0 <= i < v.len() && (#[trigger] v[i]).child_id == max_child(v),
    decreases v.len(),
{
    if v.len() > 0 {
        let u = v.drop_last();
        law_greatest_seen(u);
        assert(v[v.len() - 1] == v.last());
        assert forall|i: int| 0 <= i < v.len() implies (#[trigger] v[i]).child_id <= max_child(
            v,
        ) by {
            if i < u.len() {
                assert(u[i] == v[i]);
            }
        }
        if v.last().child_id <= max_child(u) {
            let i = choose|i: int|
                0 <= i < u.len() && (#[trigger] u[i]).child_id == max_child(u);
            assert(v[i] == u[i]);
        }
    }
}

/// A name that is padded with zeros is what stands before the first of them.
pub proof fn law_padded_name(s: Seq<u8>)
    ensures
        until_nul(s).len() <= s.len(),
        until_nul(s) == s.take(until_nul(s).len() as int),
        forall|i: int| 0 <= i < until_nul(s).len() ==> #[trigger] until_nul(s)[i] != 0,
        until_nul(s).len() < s.len() ==> s[until_nul(s).len() as int] == 0,
    decreases s.len(),
{
    if s.len() > 0 && s[0] != 0 {
        let t = s.skip(1);
        law_padded_name(t);
        let k = until_nul(t).len() as int;
        assert(until_nul(s) =~= s.take(k + 1)) by {
            assert(t.take(k) =~= s.take(k + 1).skip(1));
        }
        assert forall|i: int| 0 <= i < until_nul(s).len() implies #[trigger] until_nul(s)[i]
            != 0 by {
            if i > 0 {
                assert(until_nul(s)[i] == until_nul(t)[i - 1]);
            }
        }
    }
}

/// A name is put behind its directory with one slash between them, and stands
/// alone at the top.
pub proof fn law_relative_path(dir: Seq<u8>, name: Seq<u8>)
    ensures
        dir.len() == 0 ==> rel_path(dir, name) == name,
        dir.len() > 0 && dir.last() == 0x2f ==> rel_path(dir, name) == dir + name,
        dir.len() > 0 && dir.last() != 0x2f ==> rel_path(dir, name) == dir + seq![0x2fu8] + name,
{
    assert(dir.push(0x2f) =~= dir + seq![0x2fu8]);
}

/// A renamed subvolume is with everything in it at its new place, and no longer
/// at the old one. What lies in neither place stays as it was.
pub proof fn law_renamed_subvolume(
    a: FsState,
    from: PathView,
    to: PathView,
    x: PathView,
    q: PathView,
)
    requires
        !within(to, from),
        !within(from, to),
    ensures
        ({
            let b = with_rename(a, from, to);
            &&& b.subvols.contains_key(to + x) <==> a.subvols.contains_key(from + x)
            &&& b.files.contains_key(to + x) <==> a.files.contains_key(from + x)
            &&& b.subvols.contains_key(to + x) ==> b.subvols[to + x] == a.subvols[from + x]
            &&& b.files.contains_key(to + x) ==> b.files[to + x] == a.files[from + x]
            &&& !b.subvols.contains_key(from + x) && !b.files.contains_key(from + x)
            &&& !within(q, from) && !within(q, to) ==> (b.subvols.contains_key(q)
                <==> a.subvols.contains_key(q)) && (b.files.contains_key(q)
                <==> a.files.contains_key(q)) && (a.subvols.contains_key(q) ==> b.subvols[q]
                == a.subvols[q]) && (a.files.contains_key(q) ==> b.files[q] == a.files[q])
            &&& b.default_subvol == a.default_subvol
        }),
{
    assert((to + x).take(to.len() as int) =~= to);
    assert((to + x).skip(to.len() as int) =~= x);
    assert((from + x).take(from.len() as int) =~= from);
    if within(from + x, to) {
        crate::path::lemma_within_comparable(from + x, from, to);
    }
}

proof fn lemma_pieces(a: Seq<char>, b: Seq<char>)
    ensures
        pieces(a + seq!['/'] + b) == pieces(a) + pieces(b),
    decreases a.len(),
{
    let s = a + seq!['/'] + b;
    if exists|i: int| 0 <= i < a.len() && a[i] == '/' {
        lemma_first_part(a, '/');
        let (x, y) = split_first(a, '/')->0;
        let i = x.len() as int;
        assert forall|j: int| 0 <= j < i implies s[j] != '/' by {
            assert(s[j] == x[j]);
        }
        lemma_split_first_at(s, '/', i);
        assert(s.subrange(0, i) =~= x);
        assert(s.subrange(i + 1, s.len() as int) =~= y + seq!['/'] + b);
        lemma_pieces(y, b);
        assert(piece(x) + (pieces(y) + pieces(b)) =~= (piece(x) + pieces(y)) + pieces(b));
    } else {
        lemma_split_first_none(a, '/');
        let i = a.len() as int;
        assert forall|j: int| 0 <= j < i implies s[j] != '/' by {
            assert(s[j] == a[j]);
        }
        lemma_split_first_at(s, '/', i);
        assert(s.subrange(0, i) =~= a);
        assert(s.subrange(i + 1, s.len() as int) =~= b);
    }
}

/// A text is split at the first of a character, which does not stand before the
/// split.
pub proof fn lemma_first_part(a: Seq<char>, c: char)
    ensures
        split_first(a, c) is Some <==> exists|i: int| 0 <= i < a.len() && a[i] == c,
        split_first(a, c) matches Some((x, y)) ==> a == x + seq![c] + y && forall|j: int|
            0 <= j < x.len() ==> #[trigger] x[j] != c,
    decreases a.len(),
{
    if a.len() > 0 {
        let t = a.skip(1);
        assert(a =~= seq![a[0]] + t);
        if a[0] == c {
            assert(a =~= Seq::empty() + seq![c] + t);
        } else {
            lemma_first_part(t, c);
            if split_first(t, c) is Some {
                let i = choose|i: int| 0 <= i < t.len() && t[i] == c;
                assert(a[i + 1] == c);
                let (x, y) = split_first(t, c)->0;
                assert(a =~= (seq![a[0]] + x) + seq![c] + y);
                assert forall|j: int| 0 <= j < x.len() + 1 implies #[trigger] (seq![a[0]] + x)[j]
                    != c by {
                    if j > 0 {
                        assert((seq![a[0]] + x)[j] == x[j - 1]);
                    }
                }
            }
            if exists|i: int| 0 <= i < a.len() && a[i] == c {
                let i = choose|i: int| 0 <= i < a.len() && a[i] == c;
                assert(t[i - 1] == c);
            }
        }
    }
}

/// A path is read name by name: slashes separate, a repeated slash or a `.`
/// adds nothing, and a path that starts with a slash starts at the root.
pub proof fn law_paths_are_read(base: PathView, a: Seq<char>, b: Seq<char>)
    ensures
        path_of(a + "/"@ + b) == if a.len() == 0 {
            seq!["/"@] + pieces(b)
        } else {
            path_of(a) + pieces(b)
        },
        path_join(base, "."@) == base,
        path_join(base, ""@) == base,
        path_join(base, "/"@ + b) == path_of("/"@ + b),
        is_component(b) ==> path_join(base, b) == base.push(b) && pieces(b) == seq![b],
{
    reveal_strlit("/");
    reveal_strlit(".");
    reveal_strlit("");
    assert("/"@ =~= seq!['/']);
    lemma_pieces(a, b);
    let s = a + "/"@ + b;
    if a.len() == 0 {
        assert(s[0] == '/');
        assert(pieces(a) =~= Seq::empty());
    } else {
        assert(s[0] == a[0]);
        assert((seq!["/"@] + pieces(a)) + pieces(b) =~= seq!["/"@] + (pieces(a) + pieces(b)));
    }
    lemma_split_first_none("."@, '/');
    assert(base + Seq::<Seq<char>>::empty() =~= base);
    if is_component(b) {
        lemma_split_first_none(b, '/');
        assert(base + seq![b] =~= base.push(b));
    }
}

} // verus!
