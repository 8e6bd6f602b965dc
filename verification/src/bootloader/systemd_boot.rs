//! Entries of systemd-boot.

use vstd::prelude::*;
use vstd::string::*;

use crate::backend::{lemma_has_parent, FileSystemBackend, FsState};
use crate::bootloader::{BootEntry, BootloaderBackend};
use crate::error::Result;
use crate::lines::{lines_of, split_lines, trim_text, trimmed_text};
use crate::path::{is_component, lemma_within_self, path_join, FsPath, PathView};
use crate::snapshot::id::{id_ok, lemma_id_plain, rsplit_once, split_last, SnapshotId};
use crate::text::{
    after_prefix, cat3, cat5, lemma_text_less_irreflexive, lemma_text_less_transitive, precedes,
    same_text, strip_prefix, text_less, views,
};

verus! {

/// systemd-boot, with its EFI system partition.
#[derive(Debug)]
pub struct SystemdBootBackend {
    pub esp_path: FsPath,
}

/// The directory of the entries.
pub open spec fn entries_path(esp: PathView) -> PathView {
    path_join(path_join(esp, "loader"@), "entries"@)
}

/// The file of the rollback entry for a snapshot.
pub open spec fn rollback_path(esp: PathView, id: Seq<char>) -> PathView {
    path_join(entries_path(esp), "revenant-rollback-"@ + id + ".conf"@)
}

/// The content of the rollback entry for a snapshot.
pub open spec fn rollback_text(id: Seq<char>, subvol: Seq<char>) -> Seq<char> {
    "title   Revenant Rollback ("@ + id
        + ")\nlinux   /vmlinuz-linux\ninitrd  /initramfs-linux.img\noptions rootflags=subvol="@
        + subvol + " rw\n"@
}

/// The title in the first of the lines that has one.
pub open spec fn title_in(lines: Seq<Seq<char>>) -> Option<Seq<char>>
    decreases lines.len(),
{
    if lines.len() == 0 {
        None
    } else {
        match after_prefix(trimmed_text(lines[0]), "title"@) {
            Some(rest) => Some(trimmed_text(rest)),
            None => title_in(lines.skip(1)),
        }
    }
}

/// Parse the title from the content of an entry file.
pub fn parse_entry_title(content: &str) -> (r: Option<String>)
    ensures
        crate::text::opt_view(r) == title_in(lines_of(content@)),
{
    let lines = split_lines(content);
    let ghost all = views(lines@);
    let mut i: usize = 0;
    proof {
        assert(all.skip(0) =~= all);
    }
    while i < lines.len()
        invariant
            i <= lines.len(),
            all == views(lines@),
            all == lines_of(content@),
            title_in(all) == title_in(all.skip(i as int)),
        decreases lines.len() - i,
    {
        proof {
            assert(all.skip(i as int)[0] == lines@[i as int]@);
            assert(all.skip(i as int).skip(1) =~= all.skip(i + 1));
        }
        let line = trim_text(lines[i].as_str());
        match strip_prefix(line.as_str(), "title") {
            Some(rest) => {
                let title = trim_text(rest);
                assert(after_prefix(trimmed_text(all.skip(i as int)[0]), "title"@) == Some(rest@));
                return Some(title);
            },
            None => {},
        }
        i = i + 1;
    }
    None
}

/// The ID of the entry in the file `name`: the name without `.conf`.
pub open spec fn entry_id(name: Seq<char>) -> Option<Seq<char>> {
    match split_last(name, '.') {
        Some((stem, ext)) => if stem.len() > 0 && ext == "conf"@ {
            Some(stem)
        } else {
            None
        },
        None => None,
    }
}

/// The title of the entry in a file with the given ID and content: the one it
/// gives, or its ID.
pub open spec fn entry_title(id: Seq<char>, content: Seq<char>) -> Seq<char> {
    match title_in(lines_of(content)) {
        Some(t) => t,
        None => id,
    }
}

/// The IDs of some entries.
pub open spec fn boot_ids(v: Seq<BootEntry>) -> Seq<Seq<char>> {
    Seq::new(v.len(), |i: int| v[i].id@)
}

/// Whether no ID precedes an earlier one.
pub open spec fn ids_sorted(v: Seq<Seq<char>>) -> bool {
    forall|i: int, j: int| 0 <= i < j < v.len() ==> !text_less(#[trigger] v[j], #[trigger] v[i])
}

/// Whether `e` is the entry in one of the files of `dir`.
pub open spec fn is_entry(st: FsState, dir: PathView, e: BootEntry) -> bool {
    &&& e.path@.len() == dir.len() + 1
    &&& e.path@.drop_last() == dir
    &&& st.files.contains_key(e.path@)
    &&& entry_id(e.path@.last()) == Some(e.id@)
}

/// Whether some entry lies at `p`.
pub open spec fn lists_path(v: Seq<BootEntry>, p: PathView) -> bool {
    exists|i: int| 0 <= i < v.len() && (#[trigger] v[i]).path@ == p
}

fn insert_entry(v: &mut Vec<BootEntry>, item: BootEntry)
    requires
        ids_sorted(boot_ids(old(v)@)),
    ensures
        ids_sorted(boot_ids(final(v)@)),
        exists|k: int| 0 <= k <= old(v)@.len() && final(v)@ == #[trigger] old(v)@.insert(k, item),
{
    let ghost before = boot_ids(v@);
    let mut k: usize = 0;
    while k < v.len() && !precedes(item.id.as_str(), v[k].id.as_str())
        invariant
            k <= v.len(),
            before == boot_ids(v@),
            forall|j: int| 0 <= j < k ==> !text_less(item.id@, #[trigger] before[j]),
        decreases v.len() - k,
    {
        assert(before[k as int] == v@[k as int].id@);
        k = k + 1;
    }
    proof {
        let now = before.insert(k as int, item.id@);
        assert(boot_ids(v@.insert(k as int, item)) =~= now);
        if k < v.len() {
            assert(before[k as int] == v@[k as int].id@);
        }
        assert forall|i: int, j: int| 0 <= i < j < now.len() implies !text_less(
            #[trigger] now[j],
            #[trigger] now[i],
        ) by {
            if i < k && j > k {
                assert(!text_less(before[j - 1], before[i]));
            } else if i == k {
                let x = before[j - 1];
                if text_less(x, item.id@) {
                    lemma_text_less_transitive(x, item.id@, before[k as int]);
                    if j - 1 > k {
                        assert(!text_less(before[j - 1], before[k as int]));
                    } else {
                        lemma_text_less_irreflexive(x);
                    }
                }
            } else if i > k {
                assert(!text_less(before[j - 1], before[i - 1]));
            } else if j < k {
                assert(!text_less(before[j], before[i]));
            }
        }
    }
    v.insert(k, item);
}

proof fn lemma_inserted(before: Seq<BootEntry>, after: Seq<BootEntry>, item: BootEntry)
    requires
        exists|k: int| 0 <= k <= before.len() && after == #[trigger] before.insert(k, item),
    ensures
        lists_path(after, item.path@),
        forall|i: int|
            0 <= i < after.len() ==> #[trigger] after[i] == item || before.contains(after[i]),
        forall|p: PathView| #[trigger] lists_path(before, p) ==> lists_path(after, p),
        (forall|i: int, j: int|
            0 <= i < j < before.len() ==> (#[trigger] before[i]).path@ != (
            #[trigger] before[j]).path@) && !lists_path(before, item.path@) ==> forall|
            i: int,
            j: int,
        |
            0 <= i < j < after.len() ==> (#[trigger] after[i]).path@ != (#[trigger] after[j]).path@,
{
    let at = choose|k: int|
        0 <= k <= before.len() && after == #[trigger] before.insert(k, item);
    assert(after[at] == item);
    assert forall|i: int| 0 <= i < after.len() implies #[trigger] after[i] == item
        || before.contains(after[i]) by {
        if i < at {
            assert(after[i] == before[i]);
        } else if i > at {
            assert(after[i] == before[i - 1]);
        }
    }
    assert forall|p: PathView| #[trigger] lists_path(before, p) implies lists_path(after, p) by {
        let i = choose|i: int| 0 <= i < before.len() && (#[trigger] before[i]).path@ == p;
        if i < at {
            assert(after[i] == before[i]);
        } else {
            assert(after[i + 1] == before[i]);
        }
    }
    if (forall|i: int, j: int|
        0 <= i < j < before.len() ==> (#[trigger] before[i]).path@ != (#[trigger] before[j]).path@)
        && !lists_path(before, item.path@) {
        assert forall|i: int, j: int| 0 <= i < j < after.len() implies (
        #[trigger] after[i]).path@ != (#[trigger] after[j]).path@ by {
            let x = if i < at {
                i
            } else {
                i - 1
            };
            let y = if j < at {
                j
            } else {
                j - 1
            };
            if i != at {
                assert(after[i] == before[x]);
            }
            if j != at {
                assert(after[j] == before[y]);
            }
        }
    }
}

impl SystemdBootBackend {
    /// systemd-boot on the given EFI system partition.
    #[must_use]
    pub fn new(esp_path: FsPath) -> (r: Self)
        ensures
            r.esp_path@ == esp_path@,
    {
        SystemdBootBackend { esp_path }
    }

    /// The directory of the entries.
    pub fn entries_dir(&self) -> (r: FsPath)
        ensures
            r@ == entries_path(self.esp_path@),
    {
        self.esp_path.join("loader").join("entries")
    }

    /// The file of the rollback entry for a snapshot.
    pub fn rollback_entry_path(&self, id: &SnapshotId) -> (r: FsPath)
        ensures
            r@ == rollback_path(self.esp_path@, id@),
    {
        let name = cat3("revenant-rollback-", id.as_str(), ".conf");
        self.entries_dir().join(name.as_str())
    }
}

proof fn lemma_rollback_name(id: Seq<char>)
    requires
        id_ok(id),
    ensures
        is_component("revenant-rollback-"@ + id + ".conf"@),
{
    reveal_strlit("revenant-rollback-");
    reveal_strlit(".conf");
    reveal_strlit(".");
    lemma_id_plain(id);
    let name = "revenant-rollback-"@ + id + ".conf"@;
    assert forall|i: int| 0 <= i < name.len() implies name[i] != '/' by {
        let k = "revenant-rollback-"@.len() as int;
        if k <= i < k + id.len() {
            assert(name[i] == id[i - k]);
        }
    }
}

impl BootloaderBackend for SystemdBootBackend {
    fn detect<B: FileSystemBackend>(&self, fs: &B) -> (r: Result<bool>)
        ensures
            r is Ok,
            r->Ok_0 ==> fs.state().files.contains_key(
                path_join(path_join(self.esp_path@, "loader"@), "loader.conf"@),
            ),
            fs.reliable() ==> r->Ok_0 == fs.state().files.contains_key(
                path_join(path_join(self.esp_path@, "loader"@), "loader.conf"@),
            ),
    {
        match fs.read_file(&self.esp_path.join("loader").join("loader.conf")) {
            Ok(found) => Ok(found.is_some()),
            Err(_) => Ok(false),
        }
    }

    fn efi_partition_path(&self) -> (r: Result<FsPath>)
        ensures
            r is Ok,
            r->Ok_0@ == self.esp_path@,
    {
        Ok(self.esp_path.clone())
    }

    fn list_entries<B: FileSystemBackend>(&self, fs: &B) -> (r: Result<Vec<BootEntry>>)
        ensures
            fs.reliable() ==> r is Ok,
            r is Ok ==> ids_sorted(boot_ids(r->Ok_0@)),
            r is Ok ==> forall|i: int|
                0 <= i < r->Ok_0@.len() ==> is_entry(
                    fs.state(),
                    entries_path(self.esp_path@),
                    #[trigger] r->Ok_0@[i],
                ),
            r is Ok ==> forall|n: Seq<char>| #[trigger]
                fs.state().files.contains_key(entries_path(self.esp_path@).push(n)) && entry_id(
                    n,
                ) is Some ==> lists_path(r->Ok_0@, entries_path(self.esp_path@).push(n)),
            r is Ok ==> forall|i: int, j: int|
                0 <= i < j < r->Ok_0@.len() ==> (#[trigger] r->Ok_0@[i]).path@ != (
                #[trigger] r->Ok_0@[j]).path@,
            r is Ok && fs.reliable() ==> forall|i: int|
                0 <= i < r->Ok_0@.len() ==> (#[trigger] r->Ok_0@[i]).title@ == entry_title(
                    r->Ok_0@[i].id@,
                    fs.state().files[r->Ok_0@[i].path@],
                ),
    {
        let dir = self.entries_dir();
        let ghost st = fs.state();
        let names = match fs.list_files(&dir) {
            Ok(v) => v,
            Err(e) => {
                return Err(e);
            },
        };
        let mut out: Vec<BootEntry> = Vec::new();
        let mut i: usize = 0;
        while i < names.len()
            invariant
                i <= names.len(),
                st == fs.state(),
                dir@ == entries_path(self.esp_path@),
                forall|n: Seq<char>|
                    views(names@).contains(n) <==> #[trigger] st.files.contains_key(dir@.push(n)),
                views(names@).no_duplicates(),
                ids_sorted(boot_ids(out@)),
                forall|k: int| 0 <= k < out@.len() ==> is_entry(st, dir@, #[trigger] out@[k]),
                forall|k: int|
                    0 <= k < out@.len() ==> views(names@).take(i as int).contains(
                        (#[trigger] out@[k]).path@.last(),
                    ),
                forall|k: int, l: int|
                    0 <= k < l < out@.len() ==> (#[trigger] out@[k]).path@ != (
                    #[trigger] out@[l]).path@,
                forall|j: int|
                    0 <= j < i && entry_id(#[trigger] views(names@)[j]) is Some ==> lists_path(
                        out@,
                        dir@.push(views(names@)[j]),
                    ),
                fs.reliable() ==> forall|k: int|
                    0 <= k < out@.len() ==> (#[trigger] out@[k]).title@ == entry_title(
                        out@[k].id@,
                        st.files[out@[k].path@],
                    ),
            decreases names.len() - i,
        {
            let name = names[i].as_str();
            let ghost before = out@;
            let ghost all = views(names@);
            proof {
                assert(all[i as int] == name@);
                assert(all.contains(name@));
                assert(st.files.contains_key(dir@.push(name@)));
                assert forall|n: Seq<char>| all.take(i as int).contains(n) implies all.take(
                    i + 1,
                ).contains(n) by {
                    let j = choose|j: int| 0 <= j < i && all.take(i as int)[j] == n;
                    assert(all.take(i + 1)[j] == n);
                }
                assert(all.take(i + 1)[i as int] == name@);
                assert(!all.take(i as int).contains(name@));
            }
            match rsplit_once(name, '.') {
                Some((stem, ext)) => {
                    if !stem.as_str().is_empty() && same_text(ext.as_str(), "conf") {
                        let path = dir.child(name);
                        let title: String = match fs.read_file(&path) {
                            Ok(found) => match found {
                                Some(text) => match parse_entry_title(text.as_str()) {
                                    Some(t) => t,
                                    None => stem.clone(),
                                },
                                None => stem.clone(),
                            },
                            Err(_) => stem.clone(),
                        };
                        let item = BootEntry { id: stem, title, path };
                        proof {
                            assert(dir@.push(name@).drop_last() =~= dir@);
                            assert(is_entry(st, dir@, item));
                        }
                        insert_entry(&mut out, item);
                        proof {
                            lemma_inserted(before, out@, item);
                            assert(lists_path(out@, dir@.push(name@)));
                        }
                    }
                },
                None => {},
            }
            i = i + 1;
        }
        let r: Result<Vec<BootEntry>> = Ok(out);
        proof {
            let all = views(names@);
            assert forall|n: Seq<char>| #[trigger]
                st.files.contains_key(dir@.push(n)) && entry_id(n) is Some implies lists_path(
                r->Ok_0@,
                dir@.push(n),
            ) by {
                assert(all.contains(n));
                let j = choose|j: int| 0 <= j < all.len() && all[j] == n;
                assert(entry_id(all[j]) is Some);
            }
        }
        r
    }

    fn create_rollback_entry<B: FileSystemBackend>(
        &self,
        fs: &mut B,
        snapshot_id: &SnapshotId,
        rootfs_subvol: &str,
    ) -> (r: Result<()>)
        ensures
            final(fs).reliable() == old(fs).reliable(),
            r is Ok ==> final(fs).state() == (FsState {
                files: old(fs).state().files.insert(
                    rollback_path(self.esp_path@, snapshot_id@),
                    rollback_text(snapshot_id@, rootfs_subvol@),
                ),
                ..old(fs).state()
            }),
            r is Err ==> final(fs).state() == old(fs).state(),
            old(fs).reliable() && id_ok(snapshot_id@) ==> r is Ok,
    {
        let path = self.rollback_entry_path(snapshot_id);
        let content = cat5(
            "title   Revenant Rollback (",
            snapshot_id.as_str(),
            ")\nlinux   /vmlinuz-linux\ninitrd  /initramfs-linux.img\noptions rootflags=subvol=",
            rootfs_subvol,
            " rw\n",
        );
        match fs.create_dir_all(&self.entries_dir()) {
            Ok(_) => {
                proof {
                    if id_ok(snapshot_id@) {
                        let dir = entries_path(self.esp_path@);
                        lemma_within_self(dir, dir);
                        lemma_rollback_name(snapshot_id@);
                        lemma_has_parent(
                            fs.state(),
                            fs.directories(),
                            dir,
                            "revenant-rollback-"@ + snapshot_id@ + ".conf"@,
                        );
                    }
                }
            },
            Err(e) => {
                return Err(e);
            },
        }
        fs.write_file(&path, content.as_str())
    }

    fn remove_rollback_entry<B: FileSystemBackend>(
        &self,
        fs: &mut B,
        snapshot_id: &SnapshotId,
    ) -> (r: Result<()>)
        ensures
            final(fs).reliable() == old(fs).reliable(),
            r is Ok ==> final(fs).state() == (FsState {
                files: old(fs).state().files.remove(rollback_path(self.esp_path@, snapshot_id@)),
                ..old(fs).state()
            }),
            r is Err ==> final(fs).state() == old(fs).state(),
            old(fs).reliable() ==> r is Ok,
    {
        let path = self.rollback_entry_path(snapshot_id);
        match fs.remove_file(&path) {
            Ok(_) => Ok(()),
            Err(e) => Err(e),
        }
    }
}

} // verus!
