//! What a mirror of the EFI partition takes over, and what it drops.

use vstd::prelude::*;

use crate::assoc::lookup;
use crate::efi::sync::{copy_steps, stale_steps, CopyView, EntryKind, EntryView, StaleView};

verus! {

/// A file is copied exactly if it is in the source and the mirror has nothing
/// of its name, or something of another length or modification time.
pub proof fn law_copied_files(src: Seq<EntryView>, dest: Seq<EntryView>, name: Seq<char>)
    ensures
        copy_steps(src, dest).contains(CopyView::Copy { name }) <==> exists|i: int|
            0 <= i < src.len() && (#[trigger] src[i]).0 == name && src[i].1.0 == EntryKind::File && (
            match lookup(dest, name) {
                None => true,
                Some(d) => src[i].1.1.len != d.1.len || src[i].1.1.secs != d.1.secs
                    || src[i].1.1.nanos != d.1.nanos,
            }),
    decreases src.len(),
{
    let goal = CopyView::Copy { name };
    if src.len() > 0 {
        let u = src.drop_last();
        law_copied_files(u, dest, name);
        let (m, first) = (copy_steps(src, dest), copy_steps(u, dest));
        if first.contains(goal) {
            let k = choose|k: int| 0 <= k < first.len() && first[k] == goal;
            assert(m[k] == goal);
            let i = choose|i: int|
                0 <= i < u.len() && (#[trigger] u[i]).0 == name && u[i].1.0 == EntryKind::File && (
                match lookup(dest, name) {
                    None => true,
                    Some(d) => u[i].1.1.len != d.1.len || u[i].1.1.secs != d.1.secs
                        || u[i].1.1.nanos != d.1.nanos,
                });
            assert(src[i] == u[i]);
        } else if m.contains(goal) {
            let k = choose|k: int| 0 <= k < m.len() && m[k] == goal;
            if k < first.len() {
                assert(first[k] == goal);
            }
            assert(src[src.len() - 1] == src.last());
        }
        if exists|i: int|
            0 <= i < src.len() && (#[trigger] src[i]).0 == name && src[i].1.0 == EntryKind::File && (
            match lookup(dest, name) {
                None => true,
                Some(d) => src[i].1.1.len != d.1.len || src[i].1.1.secs != d.1.secs
                    || src[i].1.1.nanos != d.1.nanos,
            }) {
            let i = choose|i: int|
                0 <= i < src.len() && (#[trigger] src[i]).0 == name && src[i].1.0 == EntryKind::File
                    && (match lookup(dest, name) {
                    None => true,
                    Some(d) => src[i].1.1.len != d.1.len || src[i].1.1.secs != d.1.secs
                        || src[i].1.1.nanos != d.1.nanos,
                });
            if i < u.len() {
                assert(u[i] == src[i]);
            } else {
                assert(m[first.len() as int] == goal);
            }
        }
    }
}

/// A directory of the source is always gone into, and made first exactly if the
/// mirror has nothing of its name.
pub proof fn law_entered_directories(
    src: Seq<EntryView>,
    dest: Seq<EntryView>,
    name: Seq<char>,
    create: bool,
)
    ensures
        copy_steps(src, dest).contains(CopyView::Enter { name, create }) <==> (create <==> lookup(
            dest,
            name,
        ) is None) && exists|i: int|
            0 <= i < src.len() && (#[trigger] src[i]).0 == name && src[i].1.0
                == EntryKind::Directory,
    decreases src.len(),
{
    let goal = CopyView::Enter { name, create };
    if src.len() > 0 {
        let u = src.drop_last();
        law_entered_directories(u, dest, name, create);
        let (m, first) = (copy_steps(src, dest), copy_steps(u, dest));
        if first.contains(goal) {
            let k = choose|k: int| 0 <= k < first.len() && first[k] == goal;
            assert(m[k] == goal);
            let i = choose|i: int|
                0 <= i < u.len() && (#[trigger] u[i]).0 == name && u[i].1.0 == EntryKind::Directory;
            assert(src[i] == u[i]);
        } else if m.contains(goal) {
            let k = choose|k: int| 0 <= k < m.len() && m[k] == goal;
            if k < first.len() {
                assert(first[k] == goal);
            }
            assert(src[src.len() - 1] == src.last());
        }
        if (create <==> lookup(dest, name) is None) && exists|i: int|
            0 <= i < src.len() && (#[trigger] src[i]).0 == name && src[i].1.0
                == EntryKind::Directory {
            let i = choose|i: int|
                0 <= i < src.len() && (#[trigger] src[i]).0 == name && src[i].1.0
                    == EntryKind::Directory;
            if i < u.len() {
                assert(u[i] == src[i]);
            } else {
                assert(m[first.len() as int] == goal);
            }
        }
    }
}

/// What the mirror has and the source has not is removed, a directory with all
/// that is in it; what the source has, too, is not.
pub proof fn law_removed_entries(src: Seq<EntryView>, dest: Seq<EntryView>, name: Seq<char>)
    ensures
        stale_steps(src, dest).contains(StaleView::RemoveFile { name }) <==> lookup(src, name)
            is None && exists|i: int|
            0 <= i < dest.len() && (#[trigger] dest[i]).0 == name && dest[i].1.0
                != EntryKind::Directory,
        stale_steps(src, dest).contains(StaleView::RemoveDirectory { name }) <==> lookup(src, name)
            is None && exists|i: int|
            0 <= i < dest.len() && (#[trigger] dest[i]).0 == name && dest[i].1.0
                == EntryKind::Directory,
    decreases dest.len(),
{
    let (f, d) = (StaleView::RemoveFile { name }, StaleView::RemoveDirectory { name });
    if dest.len() > 0 {
        let u = dest.drop_last();
        law_removed_entries(src, u, name);
        let (m, first) = (stale_steps(src, dest), stale_steps(src, u));
        assert(dest[dest.len() - 1] == dest.last());
        assert forall|i: int| 0 <= i < u.len() implies #[trigger] dest[i] == u[i] by {}
        if first.contains(f) {
            let k = choose|k: int| 0 <= k < first.len() && first[k] == f;
            assert(m[k] == f);
            let i = choose|i: int|
                0 <= i < u.len() && (#[trigger] u[i]).0 == name && u[i].1.0 != EntryKind::Directory;
            assert(dest[i] == u[i]);
        } else if m.contains(f) {
            let k = choose|k: int| 0 <= k < m.len() && m[k] == f;
            if k < first.len() {
                assert(first[k] == f);
            }
        }
        if first.contains(d) {
            let k = choose|k: int| 0 <= k < first.len() && first[k] == d;
            assert(m[k] == d);
            let i = choose|i: int|
                0 <= i < u.len() && (#[trigger] u[i]).0 == name && u[i].1.0 == EntryKind::Directory;
            assert(dest[i] == u[i]);
        } else if m.contains(d) {
            let k = choose|k: int| 0 <= k < m.len() && m[k] == d;
            if k < first.len() {
                assert(first[k] == d);
            }
        }
        if lookup(src, name) is None && dest.last().0 == name {
            if dest.last().1.0 == EntryKind::Directory {
                assert(m[first.len() as int] == d);
            } else {
                assert(m[first.len() as int] == f);
            }
        }
        if lookup(src, name) is None && exists|i: int|
            0 <= i < dest.len() && (#[trigger] dest[i]).0 == name && dest[i].1.0
                != EntryKind::Directory {
            let i = choose|i: int|
                0 <= i < dest.len() && (#[trigger] dest[i]).0 == name && dest[i].1.0
                    != EntryKind::Directory;
            if i < u.len() {
                assert(u[i] == dest[i]);
            }
        }
        if lookup(src, name) is None && exists|i: int|
            0 <= i < dest.len() && (#[trigger] dest[i]).0 == name && dest[i].1.0
                == EntryKind::Directory {
            let i = choose|i: int|
                0 <= i < dest.len() && (#[trigger] dest[i]).0 == name && dest[i].1.0
                    == EntryKind::Directory;
            if i < u.len() {
                assert(u[i] == dest[i]);
            }
        }
    }
}

/// A directory of the mirror is searched for stale entries exactly if it is one
/// in the source, too.
pub proof fn law_searched_directories(src: Seq<EntryView>, dest: Seq<EntryView>, name: Seq<char>)
    ensures
        stale_steps(src, dest).contains(StaleView::Enter { name }) <==> (lookup(
            src,
            name,
        ) matches Some(s) && s.0 == EntryKind::Directory) && exists|i: int|
            0 <= i < dest.len() && (#[trigger] dest[i]).0 == name && dest[i].1.0
                == EntryKind::Directory,
    decreases dest.len(),
{
    let goal = StaleView::Enter { name };
    if dest.len() > 0 {
        let u = dest.drop_last();
        law_searched_directories(src, u, name);
        let (m, first) = (stale_steps(src, dest), stale_steps(src, u));
        assert(dest[dest.len() - 1] == dest.last());
        if first.contains(goal) {
            let k = choose|k: int| 0 <= k < first.len() && first[k] == goal;
            assert(m[k] == goal);
            let i = choose|i: int|
                0 <= i < u.len() && (#[trigger] u[i]).0 == name && u[i].1.0 == EntryKind::Directory;
            assert(dest[i] == u[i]);
        } else if m.contains(goal) {
            let k = choose|k: int| 0 <= k < m.len() && m[k] == goal;
            if k < first.len() {
                assert(first[k] == goal);
            }
        }
        if (lookup(src, name) matches Some(s) && s.0 == EntryKind::Directory) && exists|i: int|
            0 <= i < dest.len() && (#[trigger] dest[i]).0 == name && dest[i].1.0
                == EntryKind::Directory {
            let i = choose|i: int|
                0 <= i < dest.len() && (#[trigger] dest[i]).0 == name && dest[i].1.0
                    == EntryKind::Directory;
            if i < u.len() {
                assert(u[i] == dest[i]);
            } else {
                assert(m[first.len() as int] == goal);
            }
        }
    }
}

} // verus!
