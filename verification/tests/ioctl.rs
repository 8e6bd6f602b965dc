use std::mem::size_of;

use revenant::backend::btrfs::ioctl::{
    assemble_rel_path, ino_path_bytes, parse_root_refs, take_page, BtrfsIoctlGetSubvolInfoArgs,
    BtrfsIoctlInoLookupArgs, BtrfsIoctlSearchArgs, BtrfsIoctlSearchKey, BtrfsIoctlTimespec,
    BtrfsIoctlVolArgs, BtrfsIoctlVolArgsV2, RootRef, BTRFS_ROOT_REF_KEY, BTRFS_ROOT_TREE_OBJECTID,
    BTRFS_SUBVOL_RDONLY,
};
use revenant::backend::btrfs::BtrfsBackend;
use revenant::path::FsPath;

#[test]
fn vol_args_is_4096_bytes() {
    assert_eq!(size_of::<BtrfsIoctlVolArgs>(), 4096);
}

#[test]
fn vol_args_v2_is_4096_bytes() {
    assert_eq!(size_of::<BtrfsIoctlVolArgsV2>(), 4096);
}

#[test]
fn get_subvol_info_args_is_504_bytes() {
    assert_eq!(size_of::<BtrfsIoctlGetSubvolInfoArgs>(), 504);
}

#[test]
fn timespec_is_16_bytes() {
    assert_eq!(size_of::<BtrfsIoctlTimespec>(), 16);
}

#[test]
fn search_key_is_104_bytes() {
    assert_eq!(size_of::<BtrfsIoctlSearchKey>(), 104);
}

#[test]
fn search_args_is_4096_bytes() {
    assert_eq!(size_of::<BtrfsIoctlSearchArgs>(), 4096);
}

#[test]
fn ino_lookup_args_is_4096_bytes() {
    assert_eq!(size_of::<BtrfsIoctlInoLookupArgs>(), 4096);
}

/// A tree-search result item: a header, then the payload, in the
/// little-endian layout that the kernel writes.
fn search_item(objectid: u64, offset: u64, item_type: u32, data: &[u8]) -> Vec<u8> {
    let mut v = Vec::new();
    v.extend_from_slice(&0u64.to_le_bytes());
    v.extend_from_slice(&objectid.to_le_bytes());
    v.extend_from_slice(&offset.to_le_bytes());
    v.extend_from_slice(&item_type.to_le_bytes());
    v.extend_from_slice(&(data.len() as u32).to_le_bytes());
    v.extend_from_slice(data);
    v
}

/// A `btrfs_root_ref` payload: dirid, sequence, name length, name.
fn root_ref_data(dirid: u64, name: &[u8]) -> Vec<u8> {
    let mut v = Vec::new();
    v.extend_from_slice(&dirid.to_le_bytes());
    v.extend_from_slice(&0u64.to_le_bytes());
    v.extend_from_slice(&(name.len() as u16).to_le_bytes());
    v.extend_from_slice(name);
    v
}

#[test]
fn parse_root_refs_extracts_children() {
    let mut buf = Vec::new();
    buf.extend_from_slice(&search_item(
        256,
        300,
        BTRFS_ROOT_REF_KEY,
        &root_ref_data(257, b"docker"),
    ));
    buf.extend_from_slice(&search_item(
        256,
        301,
        BTRFS_ROOT_REF_KEY,
        &root_ref_data(256, b"machines"),
    ));

    let refs = parse_root_refs(&buf, 2);
    assert_eq!(refs.len(), 2);
    assert_eq!(refs[0].child_id, 300);
    assert_eq!(refs[0].dirid, 257);
    assert_eq!(refs[0].name, b"docker");
    assert_eq!(refs[1].child_id, 301);
    assert_eq!(refs[1].dirid, 256);
    assert_eq!(refs[1].name, b"machines");
}

#[test]
fn parse_root_refs_skips_non_rootref_items() {
    let mut buf = Vec::new();
    // A ROOT_ITEM to ignore, then a ROOT_REF to keep.
    buf.extend_from_slice(&search_item(256, 999, 132, &[0u8; 40]));
    buf.extend_from_slice(&search_item(
        256,
        300,
        BTRFS_ROOT_REF_KEY,
        &root_ref_data(257, b"portables"),
    ));
    let refs = parse_root_refs(&buf, 2);
    assert_eq!(refs.len(), 1);
    assert_eq!(refs[0].name, b"portables");
}

#[test]
fn parse_root_refs_stops_on_truncated_buffer() {
    // More items are claimed than the buffer holds.
    let buf = search_item(256, 300, BTRFS_ROOT_REF_KEY, &root_ref_data(257, b"x"));
    let refs = parse_root_refs(&buf, 5);
    assert_eq!(refs.len(), 1);
}

#[test]
fn ino_path_bytes_truncates_at_nul() {
    assert_eq!(ino_path_bytes(b"var/lib/\0\0\0"), b"var/lib/");
    assert_eq!(ino_path_bytes(b""), b"");
    assert_eq!(ino_path_bytes(b"\0"), b"");
}

#[test]
fn assemble_rel_path_joins_dir_and_name() {
    assert_eq!(assemble_rel_path(b"var/lib/", b"docker"), b"var/lib/docker");
    // An empty directory: the child sits at the subvolume root.
    assert_eq!(assemble_rel_path(b"", b"docker"), b"docker");
    // A missing trailing slash must not fuse components.
    assert_eq!(assemble_rel_path(b"var/lib", b"docker"), b"var/lib/docker");
}

#[test]
fn pages_follow_one_another() {
    let mut refs: Vec<RootRef> = Vec::new();
    let mut buf = search_item(256, 300, BTRFS_ROOT_REF_KEY, &root_ref_data(257, b"a"));
    buf.extend_from_slice(&search_item(256, 305, BTRFS_ROOT_REF_KEY, &root_ref_data(257, b"b")));
    assert_eq!(take_page(&mut refs, &buf, 2), Some(306));
    assert_eq!(refs.len(), 2);
    assert_eq!(take_page(&mut refs, &buf, 0), None);
    assert_eq!(refs.len(), 2);
}

#[test]
fn search_keys_ask_for_root_refs_only() {
    let key = BtrfsIoctlSearchKey::root_refs(256, 7);
    assert_eq!(key.tree_id, BTRFS_ROOT_TREE_OBJECTID);
    assert_eq!((key.min_objectid, key.max_objectid), (256, 256));
    assert_eq!((key.min_type, key.max_type), (BTRFS_ROOT_REF_KEY, BTRFS_ROOT_REF_KEY));
    assert_eq!(key.min_offset, 7);
}

#[test]
fn arguments_carry_the_name_and_end_in_zeroes() {
    let v1 = BtrfsIoctlVolArgs::new(b"snap");
    assert_eq!(&v1.name[..5], b"snap\0");
    let v2 = BtrfsIoctlVolArgsV2::new(3, b"snap", BTRFS_SUBVOL_RDONLY);
    assert_eq!((v2.fd, v2.flags), (3, 2));
    assert_eq!(&v2.name[..5], b"snap\0");
}

#[test]
fn default_arguments_are_zero() {
    let a = BtrfsIoctlGetSubvolInfoArgs::default();
    assert_eq!((a.treeid, a.parent_id, a.flags), (0, 0, 0));
    assert!(a.name.iter().all(|b| *b == 0));
    let b = BtrfsIoctlSearchArgs::default();
    assert_eq!(b.key.nr_items, 0);
    assert!(b.buf.iter().all(|b| *b == 0));
    let c = BtrfsIoctlInoLookupArgs::default();
    assert_eq!((c.treeid, c.objectid), (0, 0));
    assert!(c.name.iter().all(|b| *b == 0));
}

#[test]
fn a_path_splits_into_parent_and_name() {
    let (parent, name) = BtrfsBackend::parent_and_name(&FsPath::new("/top/@snapshots/x")).unwrap();
    assert_eq!(parent.display(), "/top/@snapshots");
    assert_eq!(name, "x");
    assert!(BtrfsBackend::parent_and_name(&FsPath::new("/")).is_err());
}
