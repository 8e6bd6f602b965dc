//! Mirroring of a whole tree: what the steps planned for each directory make
//! of it together.

use vstd::prelude::*;

use crate::assoc::{
    distinct_keys, lemma_lookup_distinct, lemma_lookup_index, lookup,
};
use crate::efi::sync::{
    changed, copy_step, copy_steps, file_copied, law_copied_file_is_source, stale_step,
    stale_steps, CopyView, EntryKind, EntryView, FileStamp, StaleView,
};

verus! {

/// The entries of a directory by name.
pub type Directory = Map<Seq<char>, Node>;

/// A file with its stamp and content, or a directory.
pub enum Node {
    File(FileStamp, Seq<u8>),
    Directory(Map<Seq<char>, Node>),
}

/// The kind of an entry.
pub open spec fn kind_of(n: Node) -> EntryKind {
    match n {
        Node::File(_, _) => EntryKind::File,
        Node::Directory(_) => EntryKind::Directory,
    }
}

/// Whether `v` lists the directory `m`: every entry once, with its kind and, if
/// it is a file, its stamp.
pub open spec fn lists(v: Seq<EntryView>, m: Directory) -> bool {
    &&& distinct_keys(v)
    &&& forall|n: Seq<char>| #[trigger] m.contains_key(n) <==> lookup(v, n) is Some
    &&& forall|n: Seq<char>| #[trigger]
        m.contains_key(n) ==> lookup(v, n)->Some_0.0 == kind_of(m[n]) && (m[n] matches Node::File(
            s,
            _,
        ) ==> lookup(v, n)->Some_0.1 == s)
}

/// The stamp of the file `n` of a directory, if it is one.
pub open spec fn stamp_at(m: Directory, n: Seq<char>) -> Option<FileStamp> {
    if m.contains_key(n) {
        match m[n] {
            Node::File(s, _) => Some(s),
            Node::Directory(_) => None,
        }
    } else {
        None
    }
}

/// The content of the file `n` of a directory; none where it is no file.
pub open spec fn content_at(m: Directory, n: Seq<char>) -> Seq<u8> {
    if m.contains_key(n) && m[n] is File {
        m[n]->File_1
    } else {
        Seq::empty()
    }
}

/// The directory `n` of a directory; an empty one where it is none.
pub open spec fn directory_at(m: Directory, n: Seq<char>) -> Directory {
    if m.contains_key(n) && m[n] is Directory {
        m[n]->Directory_0
    } else {
        Map::empty()
    }
}

/// The copy step for the entry `n` of a source directory.
pub open spec fn copy_of(src: Directory, dest: Directory, n: Seq<char>) -> Option<CopyView> {
    match src[n] {
        Node::Directory(_) => Some(CopyView::Enter { name: n, create: !dest.contains_key(n) }),
        Node::File(s, _) => if changed(s, stamp_at(dest, n)) {
            Some(CopyView::Copy { name: n })
        } else {
            None
        },
    }
}

/// The tree `dest` after the copy steps for `src` were carried out in every
/// directory: a changed file is copied by blocks and takes the stamp of its
/// source.
pub open spec fn tree_copied(src: Node, dest: Directory) -> Directory
    decreases src,
{
    match src {
        Node::File(_, _) => dest,
        Node::Directory(from) => Map::new(
            |n: Seq<char>| from.contains_key(n) || dest.contains_key(n),
            |n: Seq<char>|
                if from.contains_key(n) {
                    match copy_of(from, dest, n) {
                        Some(CopyView::Enter { name, create }) => Node::Directory(
                            tree_copied(from[n], directory_at(dest, n)),
                        ),
                        Some(CopyView::Copy { name }) => Node::File(
                            from[n]->File_0,
                            file_copied(from[n]->File_1, content_at(dest, n)),
                        ),
                        None => dest[n],
                    }
                } else {
                    dest[n]
                },
        ),
    }
}

/// The tree `dest` after the stale steps for `src` were carried out in every
/// directory.
pub open spec fn tree_stripped(src: Node, dest: Directory) -> Directory
    decreases src,
{
    match src {
        Node::File(_, _) => dest,
        Node::Directory(from) => Map::new(
            |n: Seq<char>| dest.contains_key(n) && from.contains_key(n),
            |n: Seq<char>|
                if from.contains_key(n) && from[n] is Directory && dest[n] is Directory {
                    Node::Directory(tree_stripped(from[n], dest[n]->Directory_0))
                } else {
                    dest[n]
                },
        ),
    }
}

/// Whether what the two trees both have is a file in both or a directory in
/// both.
pub open spec fn fits(src: Node, dest: Directory) -> bool
    decreases src,
{
    match src {
        Node::File(_, _) => true,
        Node::Directory(from) => forall|n: Seq<char>| #[trigger]
            from.contains_key(n) ==> (dest.contains_key(n) ==> kind_of(from[n]) == kind_of(dest[n]))
                && fits(from[n], directory_at(dest, n)),
    }
}

/// Whether the tree `now` mirrors `src`: it has the same entries, directories
/// mirror directories, and files have the stamp of their source and its
/// content, unless the tree `was` had a file of that stamp, which is then
/// left.
pub open spec fn is_mirror(src: Node, was: Directory, now: Directory) -> bool
    decreases src,
{
    match src {
        Node::File(_, _) => true,
        Node::Directory(from) => {
            &&& now.dom() == from.dom()
            &&& forall|n: Seq<char>| #[trigger]
                from.contains_key(n) ==> if from[n] is File {
                    is_file_mirror(from[n], was, n, now[n])
                } else {
                    now[n] is Directory && is_mirror(
                        from[n],
                        directory_at(was, n),
                        now[n]->Directory_0,
                    )
                }
        },
    }
}

/// Whether the file `now` mirrors the file `src`, which lies under `n`: its
/// stamp is the same and so is its content, unless the directory `was` had a
/// file of that stamp.
pub open spec fn is_file_mirror(src: Node, was: Directory, n: Seq<char>, now: Node) -> bool {
    &&& now is File
    &&& now->File_0 == src->File_0
    &&& now->File_1 == src->File_1 || (stamp_at(was, n) == Some(src->File_0) && now->File_1
        == content_at(was, n))
}

/// The steps planned for a directory are those of its entries.
pub proof fn law_steps_of_directory(
    v: Seq<EntryView>,
    w: Seq<EntryView>,
    src: Directory,
    dest: Directory,
    s: CopyView,
)
    requires
        lists(v, src),
        lists(w, dest),
        forall|n: Seq<char>| #[trigger]
            src.contains_key(n) && dest.contains_key(n) ==> kind_of(src[n]) == kind_of(dest[n]),
    ensures
        copy_steps(v, w).contains(s) <==> exists|n: Seq<char>| #[trigger]
            src.contains_key(n) && copy_of(src, dest, n) == Some(s),
{
    lemma_steps_from(v, w, s);
    if copy_steps(v, w).contains(s) {
        let i = choose|i: int| 0 <= i < v.len() && copy_step(#[trigger] v[i], w) == Some(s);
        lemma_lookup_distinct(v, i);
        let n = v[i].0;
        assert(src.contains_key(n));
        assert(dest.contains_key(n) <==> lookup(w, n) is Some);
        assert(copy_of(src, dest, n) == Some(s));
    }
    if exists|n: Seq<char>| #[trigger]
        src.contains_key(n) && copy_of(src, dest, n) == Some(s) {
        let n = choose|n: Seq<char>| #[trigger]
            src.contains_key(n) && copy_of(src, dest, n) == Some(s);
        let i = lemma_lookup_index(v, n);
        assert(dest.contains_key(n) <==> lookup(w, n) is Some);
        assert(copy_step(v[i], w) == Some(s));
    }
}

proof fn lemma_steps_from(v: Seq<EntryView>, w: Seq<EntryView>, s: CopyView)
    ensures
        copy_steps(v, w).contains(s) <==> exists|i: int|
            0 <= i < v.len() && copy_step(#[trigger] v[i], w) == Some(s),
    decreases v.len(),
{
    if v.len() > 0 {
        let init = v.drop_last();
        lemma_steps_from(init, w, s);
        let before = copy_steps(init, w);
        let all = copy_steps(v, w);
        assert(v.last() == v[v.len() - 1]);
        if all.contains(s) {
            let k = choose|k: int| 0 <= k < all.len() && all[k] == s;
            if k < before.len() {
                assert(before[k] == s);
                let i = choose|i: int|
                    0 <= i < init.len() && copy_step(#[trigger] init[i], w) == Some(s);
                assert(v[i] == init[i]);
            }
        }
        if exists|i: int| 0 <= i < v.len() && copy_step(#[trigger] v[i], w) == Some(s) {
            let i = choose|i: int| 0 <= i < v.len() && copy_step(#[trigger] v[i], w) == Some(s);
            if i < init.len() {
                assert(init[i] == v[i]);
                let k = choose|k: int| 0 <= k < before.len() && before[k] == s;
                assert(all[k] == s);
            } else {
                assert(all[before.len() as int] == s);
            }
        }
    }
}

/// The entries that the stale steps remove from a directory are those that its
/// source does not have.
pub proof fn law_stale_of_directory(
    v: Seq<EntryView>,
    w: Seq<EntryView>,
    src: Directory,
    dest: Directory,
    n: Seq<char>,
)
    requires
        lists(v, src),
        lists(w, dest),
    ensures
        stale_steps(v, w).contains(StaleView::RemoveFile { name: n }) || stale_steps(
            v,
            w,
        ).contains(StaleView::RemoveDirectory { name: n }) <==> dest.contains_key(n)
            && !src.contains_key(n),
        stale_steps(v, w).contains(StaleView::Enter { name: n }) <==> dest.contains_key(n)
            && src.contains_key(n) && src[n] is Directory && dest[n] is Directory,
{
    let file = StaleView::RemoveFile { name: n };
    let directory = StaleView::RemoveDirectory { name: n };
    let enter = StaleView::Enter { name: n };
    lemma_stale_from(v, w, file);
    lemma_stale_from(v, w, directory);
    lemma_stale_from(v, w, enter);
    assert(src.contains_key(n) <==> lookup(v, n) is Some);
    assert(dest.contains_key(n) <==> lookup(w, n) is Some);
    assert forall|i: int| 0 <= i < w.len() && (#[trigger] w[i]).0 == n implies lookup(w, n) == Some(
        w[i].1,
    ) by {
        lemma_lookup_distinct(w, i);
    }
    if dest.contains_key(n) {
        let i = lemma_lookup_index(w, n);
        assert(w[i].0 == n);
        assert(stale_step(v, w[i]) is Some || stale_step(v, w[i]) is None);
    }
}

proof fn lemma_stale_from(v: Seq<EntryView>, w: Seq<EntryView>, s: StaleView)
    ensures
        stale_steps(v, w).contains(s) <==> exists|i: int|
            0 <= i < w.len() && stale_step(v, #[trigger] w[i]) == Some(s),
    decreases w.len(),
{
    if w.len() > 0 {
        let init = w.drop_last();
        lemma_stale_from(v, init, s);
        let before = stale_steps(v, init);
        let all = stale_steps(v, w);
        assert(w.last() == w[w.len() - 1]);
        if all.contains(s) {
            let k = choose|k: int| 0 <= k < all.len() && all[k] == s;
            if k < before.len() {
                assert(before[k] == s);
                let i = choose|i: int|
                    0 <= i < init.len() && stale_step(v, #[trigger] init[i]) == Some(s);
                assert(w[i] == init[i]);
            }
        }
        if exists|i: int| 0 <= i < w.len() && stale_step(v, #[trigger] w[i]) == Some(s) {
            let i = choose|i: int| 0 <= i < w.len() && stale_step(v, #[trigger] w[i]) == Some(s);
            if i < init.len() {
                assert(init[i] == w[i]);
                let k = choose|k: int| 0 <= k < before.len() && before[k] == s;
                assert(all[k] == s);
            } else {
                assert(all[before.len() as int] == s);
            }
        }
    }
}

/// Carrying out the steps planned for every directory mirrors the whole tree.
pub proof fn law_tree_is_mirrored(src: Node, dest: Directory)
    requires
        src is Directory,
        fits(src, dest),
    ensures
        is_mirror(src, dest, tree_stripped(src, tree_copied(src, dest))),
    decreases src,
{
    let from = src->Directory_0;
    let mid = tree_copied(src, dest);
    let now = tree_stripped(src, mid);
    assert(now.dom() =~= from.dom());
    assert forall|n: Seq<char>| #[trigger] from.contains_key(n) implies if from[n] is File {
        is_file_mirror(from[n], dest, n, now[n])
    } else {
        now[n] is Directory && is_mirror(from[n], directory_at(dest, n), now[n]->Directory_0)
    } by {
        assert(mid.contains_key(n));
        if from[n] is File {
            law_copied_file_is_source(from[n]->File_1, content_at(dest, n));
        } else {
            law_tree_is_mirrored(from[n], directory_at(dest, n));
        }
    }
}

} // verus!
