//! Mirroring of the EFI system partition into its staging subvolume.
//!
//! A mirror is made directory by directory: first what is new or changed is
//! copied, then what is stale is removed. A changed file is copied block by
//! block, and a block that is already there is not written again, so that
//! snapshots of the staging subvolume share as much storage as they can.

use vstd::prelude::*;
use vstd::string::*;

use crate::assoc::{lemma_lookup_at, lemma_lookup_none, lookup};
use crate::text::same_text;

verus! {

/// Length and modification time of a file.
#[derive(Debug, Clone, Copy, PartialEq, Eq, Structural)]
pub struct FileStamp {
    pub len: u64,
    pub secs: i64,
    pub nanos: u32,
}

/// What kind of thing a directory entry is.
#[derive(Debug, Clone, Copy, PartialEq, Eq, Structural)]
pub enum EntryKind {
    File,
    Directory,
    /// A symbolic link or a special file.
    Other,
}

/// An entry of a directory.
#[derive(Debug)]
pub struct DirEntry {
    pub name: String,
    pub kind: EntryKind,
    pub stamp: FileStamp,
}

/// What an entry is, by its name.
pub type EntryView = (Seq<char>, (EntryKind, FileStamp));

/// The entries of a directory with their names.
pub open spec fn entry_views(v: Seq<DirEntry>) -> Seq<EntryView> {
    Seq::new(v.len(), |i: int| (v[i].name@, (v[i].kind, v[i].stamp)))
}

/// Whether a file has to be copied over what is there: nothing, or a file of
/// another length or modification time.
pub open spec fn changed(src: FileStamp, dest: Option<FileStamp>) -> bool {
    match dest {
        None => true,
        Some(d) => src.len != d.len || src.secs != d.secs || src.nanos != d.nanos,
    }
}

/// Check whether a file needs to be copied.
pub fn needs_copy(src: FileStamp, dest: Option<FileStamp>) -> (r: bool)
    ensures
        r == changed(src, dest),
{
    match dest {
        None => true,
        Some(d) => src.len != d.len || src.secs != d.secs || src.nanos != d.nanos,
    }
}

/// A step that brings what is new or changed into the mirror.
#[derive(Debug)]
pub enum CopyStep {
    /// Mirror the directory of this name, after it was made where `create`
    /// says so.
    Enter { name: String, create: bool },
    /// Copy the file of this name.
    Copy { name: String },
}

/// A copy step with its text.
pub enum CopyView {
    Enter { name: Seq<char>, create: bool },
    Copy { name: Seq<char> },
}

impl View for CopyStep {
    type V = CopyView;

    open spec fn view(&self) -> CopyView {
        match self {
            CopyStep::Enter { name, create } => CopyView::Enter { name: name@, create: *create },
            CopyStep::Copy { name } => CopyView::Copy { name: name@ },
        }
    }
}

/// The step for an entry of the source, given the entries of the mirror.
pub open spec fn copy_step(e: EntryView, dest: Seq<EntryView>) -> Option<CopyView> {
    let there = lookup(dest, e.0);
    match e.1.0 {
        EntryKind::Directory => Some(CopyView::Enter { name: e.0, create: there is None }),
        EntryKind::File => {
            let stamp = match there {
                Some(d) => Some(d.1),
                None => None,
            };
            if changed(e.1.1, stamp) {
                Some(CopyView::Copy { name: e.0 })
            } else {
                None
            }
        },
        EntryKind::Other => None,
    }
}

/// The steps for the entries of the source, in their order.
pub open spec fn copy_steps(src: Seq<EntryView>, dest: Seq<EntryView>) -> Seq<CopyView>
    decreases src.len(),
{
    if src.len() == 0 {
        Seq::empty()
    } else {
        let before = copy_steps(src.drop_last(), dest);
        match copy_step(src.last(), dest) {
            Some(s) => before.push(s),
            None => before,
        }
    }
}

/// The copy steps with their texts.
pub open spec fn copy_views(v: Seq<CopyStep>) -> Seq<CopyView> {
    Seq::new(v.len(), |i: int| v[i]@)
}

/// The first entry of the given name.
fn find_entry<'a>(v: &'a Vec<DirEntry>, name: &str) -> (r: Option<&'a DirEntry>)
    ensures
        match r {
            Some(e) => lookup(entry_views(v@), name@) == Some((e.kind, e.stamp)),
            None => lookup(entry_views(v@), name@) is None,
        },
{
    let ghost all = entry_views(v@);
    let mut i: usize = 0;
    while i < v.len()
        invariant
            i <= v.len(),
            all == entry_views(v@),
            forall|j: int| 0 <= j < i ==> (#[trigger] all[j]).0 != name@,
        decreases v.len() - i,
    {
        if same_text(v[i].name.as_str(), name) {
            proof {
                lemma_lookup_at(all, name@, i as int);
            }
            return Some(&v[i]);
        }
        i = i + 1;
    }
    proof {
        lemma_lookup_none(all, name@);
    }
    None
}

/// The steps that bring what is new or changed in one directory into its
/// mirror. Symbolic links and special files are left out.
pub fn plan_copies(source: &Vec<DirEntry>, dest: &Vec<DirEntry>) -> (r: Vec<CopyStep>)
    ensures
        copy_views(r@) == copy_steps(entry_views(source@), entry_views(dest@)),
{
    let ghost src = entry_views(source@);
    let ghost there = entry_views(dest@);
    let mut out: Vec<CopyStep> = Vec::new();
    let mut i: usize = 0;
    while i < source.len()
        invariant
            i <= source.len(),
            src == entry_views(source@),
            there == entry_views(dest@),
            copy_views(out@) == copy_steps(src.take(i as int), there),
        decreases source.len() - i,
    {
        let e = &source[i];
        let ghost before = out@;
        proof {
            assert(src.take(i + 1).drop_last() =~= src.take(i as int));
            assert(src.take(i + 1).last() == src[i as int]);
        }
        let found = find_entry(dest, e.name.as_str());
        match e.kind {
            EntryKind::Directory => {
                out.push(CopyStep::Enter { name: e.name.clone(), create: found.is_none() });
                assert(copy_views(out@) =~= copy_views(before).push(out@.last()@));
            },
            EntryKind::File => {
                let stamp = match found {
                    Some(d) => Some(d.stamp),
                    None => None,
                };
                if needs_copy(e.stamp, stamp) {
                    out.push(CopyStep::Copy { name: e.name.clone() });
                    assert(copy_views(out@) =~= copy_views(before).push(out@.last()@));
                }
            },
            EntryKind::Other => {},
        }
        i = i + 1;
    }
    proof {
        assert(src.take(i as int) =~= src);
    }
    out
}

/// A step that removes what is stale from the mirror.
#[derive(Debug)]
pub enum StaleStep {
    /// Look for stale entries in the directory of this name.
    Enter { name: String },
    /// Remove the directory of this name and all in it.
    RemoveDirectory { name: String },
    /// Remove the file of this name.
    RemoveFile { name: String },
}

/// A stale step with its text.
pub enum StaleView {
    Enter { name: Seq<char> },
    RemoveDirectory { name: Seq<char> },
    RemoveFile { name: Seq<char> },
}

impl View for StaleStep {
    type V = StaleView;

    open spec fn view(&self) -> StaleView {
        match self {
            StaleStep::Enter { name } => StaleView::Enter { name: name@ },
            StaleStep::RemoveDirectory { name } => StaleView::RemoveDirectory { name: name@ },
            StaleStep::RemoveFile { name } => StaleView::RemoveFile { name: name@ },
        }
    }
}

/// The step for an entry of the mirror, given the entries of the source.
pub open spec fn stale_step(src: Seq<EntryView>, e: EntryView) -> Option<StaleView> {
    match lookup(src, e.0) {
        Some(s) => if s.0 == EntryKind::Directory && e.1.0 == EntryKind::Directory {
            Some(StaleView::Enter { name: e.0 })
        } else {
            None
        },
        None => if e.1.0 == EntryKind::Directory {
            Some(StaleView::RemoveDirectory { name: e.0 })
        } else {
            Some(StaleView::RemoveFile { name: e.0 })
        },
    }
}

/// The steps for the entries of the mirror, in their order.
pub open spec fn stale_steps(src: Seq<EntryView>, dest: Seq<EntryView>) -> Seq<StaleView>
    decreases dest.len(),
{
    if dest.len() == 0 {
        Seq::empty()
    } else {
        let before = stale_steps(src, dest.drop_last());
        match stale_step(src, dest.last()) {
            Some(s) => before.push(s),
            None => before,
        }
    }
}

/// The stale steps with their texts.
pub open spec fn stale_views(v: Seq<StaleStep>) -> Seq<StaleView> {
    Seq::new(v.len(), |i: int| v[i]@)
}

/// The steps that remove what is stale from the mirror of one directory.
pub fn plan_removals(source: &Vec<DirEntry>, dest: &Vec<DirEntry>) -> (r: Vec<StaleStep>)
    ensures
        stale_views(r@) == stale_steps(entry_views(source@), entry_views(dest@)),
{
    let ghost src = entry_views(source@);
    let ghost there = entry_views(dest@);
    let mut out: Vec<StaleStep> = Vec::new();
    let mut i: usize = 0;
    while i < dest.len()
        invariant
            i <= dest.len(),
            src == entry_views(source@),
            there == entry_views(dest@),
            stale_views(out@) == stale_steps(src, there.take(i as int)),
        decreases dest.len() - i,
    {
        let e = &dest[i];
        let ghost before = out@;
        proof {
            assert(there.take(i + 1).drop_last() =~= there.take(i as int));
            assert(there.take(i + 1).last() == there[i as int]);
        }
        match find_entry(source, e.name.as_str()) {
            Some(s) => {
                if s.kind == EntryKind::Directory && e.kind == EntryKind::Directory {
                    out.push(StaleStep::Enter { name: e.name.clone() });
                    assert(stale_views(out@) =~= stale_views(before).push(out@.last()@));
                }
            },
            None => {
                if e.kind == EntryKind::Directory {
                    out.push(StaleStep::RemoveDirectory { name: e.name.clone() });
                } else {
                    out.push(StaleStep::RemoveFile { name: e.name.clone() });
                }
                assert(stale_views(out@) =~= stale_views(before).push(out@.last()@));
            },
        }
        i = i + 1;
    }
    proof {
        assert(there.take(i as int) =~= there);
    }
    out
}

/// Every file of the source that is new or changed is copied, and no other.
pub proof fn law_changed_files_are_copied(
    src: Seq<EntryView>,
    dest: Seq<EntryView>,
    name: Seq<char>,
)
    ensures
        copy_steps(src, dest).contains(CopyView::Copy { name }) <==> exists|i: int|
            0 <= i < src.len() && (#[trigger] src[i]).0 == name && src[i].1.0 == EntryKind::File
                && copy_step(src[i], dest) is Some,
    decreases src.len(),
{
    let goal = CopyView::Copy { name };
    if src.len() > 0 {
        let init = src.drop_last();
        law_changed_files_are_copied(init, dest, name);
        let before = copy_steps(init, dest);
        let all = copy_steps(src, dest);
        if all.contains(goal) && !before.contains(goal) {
            let k = choose|k: int| 0 <= k < all.len() && all[k] == goal;
            assert(k == before.len());
            assert(src[src.len() - 1] == src.last());
        }
        if before.contains(goal) {
            let k = choose|k: int| 0 <= k < before.len() && before[k] == goal;
            assert(all[k] == goal);
            let i = choose|i: int|
                0 <= i < init.len() && (#[trigger] init[i]).0 == name && init[i].1.0
                    == EntryKind::File && copy_step(init[i], dest) is Some;
            assert(src[i] == init[i]);
        }
        if exists|i: int|
            0 <= i < src.len() && (#[trigger] src[i]).0 == name && src[i].1.0 == EntryKind::File
                && copy_step(src[i], dest) is Some {
            let i = choose|i: int|
                0 <= i < src.len() && (#[trigger] src[i]).0 == name && src[i].1.0
                    == EntryKind::File && copy_step(src[i], dest) is Some;
            if i == src.len() - 1 {
                assert(all[before.len() as int] == goal);
            } else {
                assert(init[i] == src[i]);
            }
        }
    }
}

/// Nothing that the source still has is removed from the mirror.
pub proof fn law_removals_are_stale(src: Seq<EntryView>, dest: Seq<EntryView>, k: int)
    requires
        0 <= k < stale_steps(src, dest).len(),
    ensures
        match stale_steps(src, dest)[k] {
            StaleView::Enter { name } => lookup(src, name) is Some,
            StaleView::RemoveDirectory { name } => lookup(src, name) is None,
            StaleView::RemoveFile { name } => lookup(src, name) is None,
        },
    decreases dest.len(),
{
    if dest.len() > 0 {
        let before = stale_steps(src, dest.drop_last());
        if k < before.len() {
            law_removals_are_stale(src, dest.drop_last(), k);
        }
    }
}

/// The size of a block: the usual granularity of extents.
pub const BLOCK_SIZE: usize = 65536;

/// The `n` bytes of a file from `pos` on, as far as it has them.
pub open spec fn part(s: Seq<u8>, pos: int, n: int) -> Seq<u8> {
    if pos >= s.len() {
        Seq::empty()
    } else if pos + n > s.len() {
        s.subrange(pos, s.len() as int)
    } else {
        s.subrange(pos, pos + n)
    }
}

/// A file after `data` was written at `pos`, which lies in it or at its end.
pub open spec fn written(s: Seq<u8>, pos: int, data: Seq<u8>) -> Seq<u8> {
    if pos + data.len() >= s.len() {
        s.take(pos) + data
    } else {
        s.take(pos) + data + s.skip(pos + data.len())
    }
}

/// Whether a block of the source is already in the mirror.
pub open spec fn block_kept(src: Seq<u8>, dest: Seq<u8>, pos: int) -> bool {
    let block = part(src, pos, BLOCK_SIZE as int);
    pos < dest.len() && part(dest, pos, block.len() as int) == block
}

/// The mirror after the first `k` blocks of the source were copied.
pub open spec fn blocks_copied(src: Seq<u8>, dest: Seq<u8>, k: nat) -> Seq<u8>
    decreases k,
{
    if k == 0 {
        dest
    } else {
        let before = blocks_copied(src, dest, (k - 1) as nat);
        let pos = (k - 1) * BLOCK_SIZE;
        if block_kept(src, dest, pos) {
            before
        } else {
            written(before, pos, part(src, pos, BLOCK_SIZE as int))
        }
    }
}

/// The number of blocks of a file.
pub open spec fn block_count(s: Seq<u8>) -> nat {
    ((s.len() + BLOCK_SIZE - 1) / BLOCK_SIZE as int) as nat
}

/// The mirror after all blocks were copied and what lies past the end of the
/// source was cut off.
pub open spec fn file_copied(src: Seq<u8>, dest: Seq<u8>) -> Seq<u8> {
    let full = blocks_copied(src, dest, block_count(src));
    if dest.len() > src.len() {
        full.take(src.len() as int)
    } else {
        full
    }
}

proof fn lemma_blocks_copied(src: Seq<u8>, dest: Seq<u8>, k: nat)
    requires
        k <= block_count(src),
    ensures
        ({
            let done = if k * BLOCK_SIZE > src.len() {
                src.len() as int
            } else {
                k * BLOCK_SIZE
            };
            let now = blocks_copied(src, dest, k);
            &&& now.len() == if dest.len() > done {
                dest.len() as int
            } else {
                done
            }
            &&& forall|i: int| 0 <= i < done ==> #[trigger] now[i] == src[i]
            &&& forall|i: int| done <= i < dest.len() ==> #[trigger] now[i] == dest[i]
        }),
    decreases k,
{
    if k > 0 {
        lemma_blocks_copied(src, dest, (k - 1) as nat);
        let before = blocks_copied(src, dest, (k - 1) as nat);
        let now = blocks_copied(src, dest, k);
        let pos = (k - 1) * BLOCK_SIZE;
        let block = part(src, pos, BLOCK_SIZE as int);
        assert(pos < src.len());
        if block_kept(src, dest, pos) {
            let there = part(dest, pos, block.len() as int);
            assert(there.len() == block.len());
            assert forall|i: int| pos <= i < pos + block.len() implies #[trigger] now[i]
                == src[i] by {
                assert(there[i - pos] == block[i - pos]);
                assert(there[i - pos] == dest[i]);
                assert(block[i - pos] == src[i]);
            }
        } else {
            assert forall|i: int| 0 <= i < pos implies #[trigger] now[i] == src[i] by {
                assert(now[i] == before[i]);
            }
            assert forall|i: int| pos <= i < pos + block.len() implies #[trigger] now[i]
                == src[i] by {
                assert(now[i] == block[i - pos]);
            }
        }
    }
}

/// Copying by blocks makes the mirror equal to the source, whatever it held.
pub proof fn law_copied_file_is_source(src: Seq<u8>, dest: Seq<u8>)
    ensures
        file_copied(src, dest) == src,
{
    let k = block_count(src);
    lemma_blocks_copied(src, dest, k);
    assert(k * BLOCK_SIZE >= src.len());
    assert(file_copied(src, dest) =~= src);
}

/// A copy of a file block by block: how far it has come, and how long the
/// mirror was when it began.
#[derive(Debug, Clone, Copy, PartialEq, Eq, Structural)]
pub struct BlockCopy {
    pub pos: u64,
    pub dest_len: u64,
}

impl BlockCopy {
    /// A copy over a mirror of the given length.
    pub fn new(dest_len: u64) -> (r: Self)
        ensures
            r == (BlockCopy { pos: 0, dest_len }),
    {
        BlockCopy { pos: 0, dest_len }
    }

    /// Whether the mirror may hold the next block already, so that its bytes
    /// have to be read.
    pub fn reads_mirror(&self) -> (r: bool)
        ensures
            r == (self.pos < self.dest_len),
    {
        self.pos < self.dest_len
    }

    /// Take the next block of the source and the bytes that the mirror has in
    /// its place. Returns the place to write the block at, if it has to be
    /// written.
    pub fn next(&mut self, block: &Vec<u8>, there: &Vec<u8>) -> (r: Option<u64>)
        requires
            old(self).pos + block@.len() <= u64::MAX,
        ensures
            final(self).pos == old(self).pos + block@.len(),
            final(self).dest_len == old(self).dest_len,
            r == (if old(self).pos < old(self).dest_len && there@ == block@ {
                None
            } else {
                Some(old(self).pos)
            }),
    {
        let at: u64 = self.pos;
        let kept = at < self.dest_len && same_bytes(block, there);
        self.pos = at + block.len() as u64;
        if kept {
            None
        } else {
            Some(at)
        }
    }

    /// The length to cut the mirror to, if it is longer than the source.
    pub fn cut(&self, src_len: u64) -> (r: Option<u64>)
        ensures
            r == (if self.dest_len > src_len {
                Some(src_len)
            } else {
                None
            }),
    {
        if self.dest_len > src_len {
            Some(src_len)
        } else {
            None
        }
    }
}

fn same_bytes(a: &Vec<u8>, b: &Vec<u8>) -> (r: bool)
    ensures
        r == (a@ == b@),
{
    if a.len() != b.len() {
        return false;
    }
    let mut i: usize = 0;
    while i < a.len()
        invariant
            i <= a.len(),
            a.len() == b.len(),
            forall|j: int| 0 <= j < i ==> a@[j] == b@[j],
        decreases a.len() - i,
    {
        if a[i] != b[i] {
            return false;
        }
        i = i + 1;
    }
    assert(a@ =~= b@);
    true
}

} // verus!
