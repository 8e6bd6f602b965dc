use revenant::backend::mock::MockBackend;
use revenant::backend::FileSystemBackend;
use revenant::bootloader::systemd_boot::{parse_entry_title, SystemdBootBackend};
use revenant::bootloader::BootloaderBackend;
use revenant::efi::sync::{
    needs_copy, plan_copies, plan_removals, BlockCopy, CopyStep, DirEntry, EntryKind, FileStamp,
    StaleStep, BLOCK_SIZE,
};
use revenant::path::FsPath;
use revenant::snapshot::SnapshotId;

fn p(s: &str) -> FsPath {
    FsPath::new(s)
}

#[test]
fn titles_are_read_from_entries() {
    assert_eq!(
        parse_entry_title("# x\ntitle   Arch Linux\nlinux /vmlinuz\n"),
        Some("Arch Linux".to_string())
    );
    assert_eq!(parse_entry_title("linux /vmlinuz\n"), None);
}

#[test]
fn entries_are_listed_created_and_removed() {
    let mut mock = MockBackend::new();
    let boot = SystemdBootBackend::new(p("/boot"));
    assert!(!boot.detect(&mock).unwrap());
    mock.write_file(&p("/boot/loader/loader.conf"), "timeout 3\n").unwrap();
    assert!(boot.detect(&mock).unwrap());
    mock.write_file(&p("/boot/loader/entries/b.conf"), "title B\n").unwrap();
    mock.write_file(&p("/boot/loader/entries/a.conf"), "linux /x\n").unwrap();
    mock.write_file(&p("/boot/loader/entries/readme.txt"), "title no\n").unwrap();
    let entries = boot.list_entries(&mock).unwrap();
    let ids: Vec<&str> = entries.iter().map(|e| e.id.as_str()).collect();
    assert_eq!(ids, vec!["a", "b"]);
    assert_eq!(entries[1].title, "B");

    let id = SnapshotId::from_string("20260316-143022").unwrap();
    boot.create_rollback_entry(&mut mock, &id, "@").unwrap();
    let path = boot.rollback_entry_path(&id);
    assert!(mock.read_file(&path).unwrap().is_some());
    boot.remove_rollback_entry(&mut mock, &id).unwrap();
    assert!(mock.read_file(&path).unwrap().is_none());
    boot.remove_rollback_entry(&mut mock, &id).unwrap();
}

fn file(name: &str, len: u64, secs: i64) -> DirEntry {
    DirEntry {
        name: name.to_string(),
        kind: EntryKind::File,
        stamp: FileStamp { len, secs, nanos: 0 },
    }
}

fn dir(name: &str) -> DirEntry {
    DirEntry {
        name: name.to_string(),
        kind: EntryKind::Directory,
        stamp: FileStamp { len: 0, secs: 0, nanos: 0 },
    }
}

#[test]
fn changed_files_are_copied() {
    let same = FileStamp { len: 3, secs: 10, nanos: 0 };
    let newer = FileStamp { len: 3, secs: 20, nanos: 0 };
    let longer = FileStamp { len: 4, secs: 10, nanos: 0 };
    assert!(needs_copy(same, None));
    assert!(!needs_copy(same, Some(same)));
    assert!(needs_copy(newer, Some(same)));
    assert!(needs_copy(longer, Some(same)));
}

#[test]
fn a_sync_plans_copies_and_removals() {
    let source = vec![file("a", 3, 10), file("b", 3, 20), dir("d")];
    let dest = vec![file("a", 3, 10), file("b", 3, 10), file("old", 1, 1), dir("gone")];
    let copies = plan_copies(&source, &dest);
    let copied: Vec<&str> = copies
        .iter()
        .filter_map(|c| match c {
            CopyStep::Copy { name } => Some(name.as_str()),
            _ => None,
        })
        .collect();
    assert_eq!(copied, vec!["b"]);
    let removals = plan_removals(&source, &dest);
    assert_eq!(removals.len(), 2);
    assert!(removals.iter().any(|r| matches!(r, StaleStep::RemoveFile { name } if name == "old")));
    assert!(removals.iter().any(|r| matches!(r, StaleStep::RemoveDirectory { name } if name == "gone")));
}

/// Copy `src` over `dest` block by block.
fn run_copy(src: &[u8], dest: &mut Vec<u8>) -> usize {
    let mut copy = BlockCopy::new(dest.len() as u64);
    let mut written = 0;
    for block in src.chunks(BLOCK_SIZE) {
        let at = copy.pos as usize;
        let there = if copy.reads_mirror() {
            dest[at.min(dest.len())..(at + block.len()).min(dest.len())].to_vec()
        } else {
            vec![]
        };
        if let Some(off) = copy.next(&block.to_vec(), &there) {
            let end = off as usize + block.len();
            if dest.len() < end {
                dest.resize(end, 0);
            }
            dest[off as usize..end].copy_from_slice(block);
            written += 1;
        }
    }
    if let Some(n) = copy.cut(src.len() as u64) {
        dest.truncate(n as usize);
    }
    written
}

#[test]
fn block_copies_write_what_differs_and_cut_the_rest() {
    let mut src = vec![7u8; 3 * BLOCK_SIZE + 10];
    let mut dest = src.clone();
    dest.extend_from_slice(b"tail");
    src[BLOCK_SIZE + 5] = 9;
    assert_eq!(run_copy(&src, &mut dest), 1);
    assert_eq!(dest, src);
    let mut fresh = Vec::new();
    assert_eq!(run_copy(&src, &mut fresh), 4);
    assert_eq!(fresh, src);
}
