//! Arguments and results of the kernel's btrfs ioctl interface.

use vstd::prelude::*;
use vstd::slice::*;

verus! {

/// Flag of a read-only subvolume.
pub const BTRFS_SUBVOL_RDONLY: u64 = 2;

/// Longest name in [`BtrfsIoctlVolArgsV2`].
pub const BTRFS_SUBVOL_NAME_MAX: usize = 4039;

/// Longest name in [`BtrfsIoctlVolArgs`].
pub const BTRFS_VOL_NAME_MAX: usize = 4087;

/// The tree that holds the references between subvolumes.
pub const BTRFS_ROOT_TREE_OBJECTID: u64 = 1;

/// Type of the items that refer from a subvolume to one nested in it.
pub const BTRFS_ROOT_REF_KEY: u32 = 156;

/// Size of the header before every item of a search result.
pub const SEARCH_HEADER_SIZE: usize = 32;

/// Arguments for `BTRFS_IOC_SNAP_CREATE_V2`.
pub struct BtrfsIoctlVolArgsV2 {
    pub fd: i64,
    pub transid: u64,
    pub flags: u64,
    pub unused: [u64; 4],
    pub name: [u8; 4040],
}

/// Arguments for `BTRFS_IOC_SUBVOL_CREATE` and `BTRFS_IOC_SNAP_DESTROY`.
pub struct BtrfsIoctlVolArgs {
    pub fd: i64,
    pub name: [u8; 4088],
}

/// A time stamp of the kernel.
#[derive(Clone, Copy)]
pub struct BtrfsIoctlTimespec {
    pub sec: u64,
    pub nsec: u32,
}

/// Result from `BTRFS_IOC_GET_SUBVOL_INFO`.
pub struct BtrfsIoctlGetSubvolInfoArgs {
    pub treeid: u64,
    pub name: [u8; 256],
    pub parent_id: u64,
    pub dirid: u64,
    pub generation: u64,
    pub flags: u64,
    pub uuid: [u8; 16],
    pub parent_uuid: [u8; 16],
    pub received_uuid: [u8; 16],
    pub ctransid: u64,
    pub otransid: u64,
    pub stransid: u64,
    pub rtransid: u64,
    pub ctime: BtrfsIoctlTimespec,
    pub otime: BtrfsIoctlTimespec,
    pub stime: BtrfsIoctlTimespec,
    pub rtime: BtrfsIoctlTimespec,
    pub reserved: [u64; 8],
}

/// Search key for `BTRFS_IOC_TREE_SEARCH`.
#[derive(Clone, Copy)]
pub struct BtrfsIoctlSearchKey {
    pub tree_id: u64,
    pub min_objectid: u64,
    pub max_objectid: u64,
    pub min_offset: u64,
    pub max_offset: u64,
    pub min_transid: u64,
    pub max_transid: u64,
    pub min_type: u32,
    pub max_type: u32,
    /// In: most items to return. Out: number of items returned.
    pub nr_items: u32,
    pub unused: u32,
    pub unused1: u64,
    pub unused2: u64,
    pub unused3: u64,
    pub unused4: u64,
}

/// Arguments for `BTRFS_IOC_TREE_SEARCH`: the key and a result buffer.
pub struct BtrfsIoctlSearchArgs {
    pub key: BtrfsIoctlSearchKey,
    pub buf: [u8; 3992],
}

/// Arguments for `BTRFS_IOC_INO_LOOKUP`.
pub struct BtrfsIoctlInoLookupArgs {
    pub treeid: u64,
    pub objectid: u64,
    pub name: [u8; 4080],
}

/// A direct child subvolume of the searched subvolume.
#[derive(Debug, PartialEq, Eq)]
pub struct RootRef {
    /// Subvolume ID of the child.
    pub child_id: u64,
    /// Inode of the directory inside the parent that holds the child's entry.
    pub dirid: u64,
    /// Name of the child's directory entry.
    pub name: Vec<u8>,
}

/// A child subvolume with its name.
pub struct RootRefView {
    pub child_id: u64,
    pub dirid: u64,
    pub name: Seq<u8>,
}

impl View for RootRef {
    type V = RootRefView;

    open spec fn view(&self) -> RootRefView {
        RootRefView { child_id: self.child_id, dirid: self.dirid, name: self.name@ }
    }
}

/// The references of a list.
pub open spec fn ref_views(v: Seq<RootRef>) -> Seq<RootRefView> {
    Seq::new(v.len(), |i: int| v[i]@)
}

/// `name` in a field of `n` bytes that ends in a zero byte: cut to `n - 1`
/// bytes, the rest zero.
pub open spec fn padded(name: Seq<u8>, n: int) -> Seq<u8> {
    Seq::new(
        n as nat,
        |i: int|
            if i < name.len() && i < n - 1 {
                name[i]
            } else {
                0
            },
    )
}

impl BtrfsIoctlVolArgsV2 {
    /// Arguments that name a new snapshot of the subvolume open as `fd`.
    pub fn new(fd: i64, name: &[u8], flags: u64) -> (r: Self)
        ensures
            r.fd == fd,
            r.transid == 0,
            r.flags == flags,
            r.unused@ == seq![0u64, 0u64, 0u64, 0u64],
            r.name@ == padded(name@, 4040),
    {
        let mut field: [u8; 4040] = [0; 4040];
        let mut i: usize = 0;
        while i < name.len() && i < BTRFS_SUBVOL_NAME_MAX
            invariant
                i <= name.len(),
                i <= 4039,
                field@.len() == 4040,
                forall|j: int| 0 <= j < i ==> field@[j] == name@[j],
                forall|j: int| i <= j < 4040 ==> field@[j] == 0,
            decreases name.len() - i,
        {
            field[i] = name[i];
            i = i + 1;
        }
        assert(field@ =~= padded(name@, 4040));
        let unused: [u64; 4] = [0, 0, 0, 0];
        assert(unused@ =~= seq![0u64, 0u64, 0u64, 0u64]);
        BtrfsIoctlVolArgsV2 { fd, transid: 0, flags, unused, name: field }
    }
}

/// The zero time stamp.
pub open spec fn zero_time() -> BtrfsIoctlTimespec {
    BtrfsIoctlTimespec { sec: 0, nsec: 0 }
}

/// Whether all bytes are zero.
pub open spec fn all_zero(s: Seq<u8>) -> bool {
    forall|i: int| 0 <= i < s.len() ==> #[trigger] s[i] == 0
}

impl Default for BtrfsIoctlGetSubvolInfoArgs {
    fn default() -> (r: Self)
        ensures
            r.treeid == 0 && r.parent_id == 0 && r.dirid == 0 && r.generation == 0 && r.flags == 0,
            r.ctransid == 0 && r.otransid == 0 && r.stransid == 0 && r.rtransid == 0,
            all_zero(r.name@) && all_zero(r.uuid@) && all_zero(r.parent_uuid@) && all_zero(
                r.received_uuid@,
            ),
            r.ctime == zero_time() && r.otime == zero_time() && r.stime == zero_time() && r.rtime
                == zero_time(),
            forall|i: int| 0 <= i < 8 ==> #[trigger] r.reserved@[i] == 0,
    {
        let t = BtrfsIoctlTimespec { sec: 0, nsec: 0 };
        BtrfsIoctlGetSubvolInfoArgs {
            treeid: 0,
            name: [0; 256],
            parent_id: 0,
            dirid: 0,
            generation: 0,
            flags: 0,
            uuid: [0; 16],
            parent_uuid: [0; 16],
            received_uuid: [0; 16],
            ctransid: 0,
            otransid: 0,
            stransid: 0,
            rtransid: 0,
            ctime: t,
            otime: t,
            stime: t,
            rtime: t,
            reserved: [0; 8],
        }
    }
}

impl Default for BtrfsIoctlSearchArgs {
    fn default() -> (r: Self)
        ensures
            all_zero(r.buf@),
            r.key == (BtrfsIoctlSearchKey {
                tree_id: 0,
                min_objectid: 0,
                max_objectid: 0,
                min_offset: 0,
                max_offset: 0,
                min_transid: 0,
                max_transid: 0,
                min_type: 0,
                max_type: 0,
                nr_items: 0,
                unused: 0,
                unused1: 0,
                unused2: 0,
                unused3: 0,
                unused4: 0,
            }),
    {
        BtrfsIoctlSearchArgs {
            key: BtrfsIoctlSearchKey {
                tree_id: 0,
                min_objectid: 0,
                max_objectid: 0,
                min_offset: 0,
                max_offset: 0,
                min_transid: 0,
                max_transid: 0,
                min_type: 0,
                max_type: 0,
                nr_items: 0,
                unused: 0,
                unused1: 0,
                unused2: 0,
                unused3: 0,
                unused4: 0,
            },
            buf: [0; 3992],
        }
    }
}

impl Default for BtrfsIoctlInoLookupArgs {
    fn default() -> (r: Self)
        ensures
            r.treeid == 0,
            r.objectid == 0,
            all_zero(r.name@),
    {
        BtrfsIoctlInoLookupArgs { treeid: 0, objectid: 0, name: [0; 4080] }
    }
}

impl BtrfsIoctlVolArgs {
    /// Arguments that name a subvolume.
    pub fn new(name: &[u8]) -> (r: Self)
        ensures
            r.fd == 0,
            r.name@ == padded(name@, 4088),
    {
        let mut field: [u8; 4088] = [0; 4088];
        let mut i: usize = 0;
        while i < name.len() && i < BTRFS_VOL_NAME_MAX
            invariant
                i <= name.len(),
                i <= 4087,
                field@.len() == 4088,
                forall|j: int| 0 <= j < i ==> field@[j] == name@[j],
                forall|j: int| i <= j < 4088 ==> field@[j] == 0,
            decreases name.len() - i,
        {
            field[i] = name[i];
            i = i + 1;
        }
        assert(field@ =~= padded(name@, 4088));
        BtrfsIoctlVolArgs { fd: 0, name: field }
    }
}

impl BtrfsIoctlSearchKey {
    /// The key that finds the references from a subvolume to those nested in
    /// it, from the child ID `min_offset` on.
    pub fn root_refs(subvol_id: u64, min_offset: u64) -> (r: Self)
        ensures
            r.tree_id == BTRFS_ROOT_TREE_OBJECTID,
            r.min_objectid == subvol_id && r.max_objectid == subvol_id,
            r.min_type == BTRFS_ROOT_REF_KEY && r.max_type == BTRFS_ROOT_REF_KEY,
            r.min_offset == min_offset && r.max_offset == u64::MAX,
            r.min_transid == 0 && r.max_transid == u64::MAX,
            r.nr_items == u32::MAX,
    {
        BtrfsIoctlSearchKey {
            tree_id: BTRFS_ROOT_TREE_OBJECTID,
            min_objectid: subvol_id,
            max_objectid: subvol_id,
            min_offset,
            max_offset: u64::MAX,
            min_transid: 0,
            max_transid: u64::MAX,
            min_type: BTRFS_ROOT_REF_KEY,
            max_type: BTRFS_ROOT_REF_KEY,
            nr_items: u32::MAX,
            unused: 0,
            unused1: 0,
            unused2: 0,
            unused3: 0,
            unused4: 0,
        }
    }
}

/// The value of the `n` bytes at `off`, the least significant first.
pub open spec fn le_value(b: Seq<u8>, off: int, n: nat) -> int
    decreases n,
{
    if n == 0 {
        0
    } else {
        b[off] + 256 * le_value(b, off + 1, (n - 1) as nat)
    }
}

/// Read a little-endian integer of eight bytes at `off`, if it is all there.
pub fn read_u64_le(b: &[u8], off: usize) -> (r: Option<u64>)
    ensures
        match r {
            Some(v) => off + 8 <= b@.len() && v == le_value(b@, off as int, 8),
            None => off + 8 > b@.len(),
        },
{
    if b.len() < 8 || off > b.len() - 8 {
        return None;
    }
    proof {
        reveal_with_fuel(le_value, 9);
    }
    let v7: u64 = b[off + 7] as u64;
    let v6: u64 = v7 * 256 + b[off + 6] as u64;
    assert(v6 <= 0xffff);
    let v5: u64 = v6 * 256 + b[off + 5] as u64;
    assert(v5 <= 0xff_ffff);
    let v4: u64 = v5 * 256 + b[off + 4] as u64;
    assert(v4 <= 0xffff_ffff);
    let v3: u64 = v4 * 256 + b[off + 3] as u64;
    assert(v3 <= 0xff_ffff_ffff);
    let v2: u64 = v3 * 256 + b[off + 2] as u64;
    assert(v2 <= 0xffff_ffff_ffff);
    let v1: u64 = v2 * 256 + b[off + 1] as u64;
    assert(v1 <= 0xff_ffff_ffff_ffff);
    Some(v1 * 256 + b[off] as u64)
}

/// Read a little-endian integer of four bytes at `off`, if it is all there.
pub fn read_u32_le(b: &[u8], off: usize) -> (r: Option<u32>)
    ensures
        match r {
            Some(v) => off + 4 <= b@.len() && v == le_value(b@, off as int, 4),
            None => off + 4 > b@.len(),
        },
{
    if b.len() < 4 || off > b.len() - 4 {
        return None;
    }
    proof {
        reveal_with_fuel(le_value, 5);
    }
    let v2: u32 = b[off + 3] as u32 * 256 + b[off + 2] as u32;
    assert(v2 <= 0xffff);
    let v1: u32 = v2 * 256 + b[off + 1] as u32;
    assert(v1 <= 0xff_ffff);
    Some(v1 * 256 + b[off] as u32)
}

/// Read a little-endian integer of two bytes at `off`, if it is all there.
pub fn read_u16_le(b: &[u8], off: usize) -> (r: Option<u16>)
    ensures
        match r {
            Some(v) => off + 2 <= b@.len() && v == le_value(b@, off as int, 2),
            None => off + 2 > b@.len(),
        },
{
    if b.len() < 2 || off > b.len() - 2 {
        return None;
    }
    proof {
        reveal_with_fuel(le_value, 3);
    }
    Some(b[off + 1] as u16 * 256 + b[off] as u16)
}

/// The reference in the item data `d` for the given child: directory inode,
/// sequence number, length of the name, name.
pub open spec fn ref_in(d: Seq<u8>, child_id: u64) -> RootRefView {
    let n = le_value(d, 16, 2);
    let end = if 18 + n <= d.len() {
        18 + n
    } else {
        d.len() as int
    };
    RootRefView { child_id, dirid: le_value(d, 0, 8) as u64, name: d.subrange(18, end) }
}

/// The references among the next `n` items of a search result from `off` on.
/// Each item is a header (transaction, object, offset, type, length) and its
/// data. What does not fit in the buffer ends the result.
pub open spec fn refs_from(buf: Seq<u8>, off: int, n: nat) -> Seq<RootRefView>
    decreases n,
{
    let start = off + SEARCH_HEADER_SIZE;
    let end = start + le_value(buf, off + 28, 4);
    if n == 0 || start > buf.len() || end > buf.len() {
        Seq::empty()
    } else {
        let d = buf.subrange(start, end);
        let rest = refs_from(buf, end, (n - 1) as nat);
        if le_value(buf, off + 24, 4) == BTRFS_ROOT_REF_KEY && d.len() >= 18 {
            seq![ref_in(d, le_value(buf, off + 16, 8) as u64)] + rest
        } else {
            rest
        }
    }
}

/// Parse `nr_items` results out of a `BTRFS_IOC_TREE_SEARCH` result buffer,
/// keeping only the references to nested subvolumes.
pub fn parse_root_refs(buf: &[u8], nr_items: u32) -> (r: Vec<RootRef>)
    ensures
        ref_views(r@) == refs_from(buf@, 0, nr_items as nat),
{
    let mut out: Vec<RootRef> = Vec::new();
    let mut off: usize = 0;
    let mut left: u32 = nr_items;
    proof {
        assert(ref_views(out@) + refs_from(buf@, 0, nr_items as nat) =~= refs_from(
            buf@,
            0,
            nr_items as nat,
        ));
    }
    while left > 0
        invariant
            off <= buf@.len(),
            ref_views(out@) + refs_from(buf@, off as int, left as nat) == refs_from(
                buf@,
                0,
                nr_items as nat,
            ),
        decreases left,
    {
        if buf.len() - off < SEARCH_HEADER_SIZE {
            proof {
                assert(refs_from(buf@, off as int, left as nat) =~= Seq::empty());
                assert(ref_views(out@) + Seq::<RootRefView>::empty() =~= ref_views(out@));
            }
            return out;
        }
        let (child, kind, size) = match (
            read_u64_le(buf, off + 16),
            read_u32_le(buf, off + 24),
            read_u32_le(buf, off + 28),
        ) {
            (Some(c), Some(k), Some(s)) => (c, k, s),
            _ => {
                return out;
            },
        };
        let start: usize = off + SEARCH_HEADER_SIZE;
        if size as usize > buf.len() - start {
            proof {
                assert(refs_from(buf@, off as int, left as nat) =~= Seq::empty());
                assert(ref_views(out@) + Seq::<RootRefView>::empty() =~= ref_views(out@));
            }
            return out;
        }
        let end: usize = start + size as usize;
        let ghost before = ref_views(out@);
        let ghost rest = refs_from(buf@, end as int, (left - 1) as nat);
        let ghost d = buf@.subrange(start as int, end as int);
        if kind == BTRFS_ROOT_REF_KEY {
            let data = slice_subrange(buf, start, end);
            match (read_u64_le(data, 0), read_u16_le(data, 16)) {
                (Some(dirid), Some(len)) => {
                    let name_end: usize = if len as usize <= data.len() - 18 {
                        18 + len as usize
                    } else {
                        data.len()
                    };
                    let name = slice_to_vec(slice_subrange(data, 18, name_end));
                    let item = RootRef { child_id: child, dirid, name };
                    out.push(item);
                    proof {
                        assert(ref_views(out@) =~= before.push(item@));
                        assert(item@ == ref_in(d, child));
                        assert(before.push(item@) + rest =~= before + (seq![item@] + rest));
                    }
                },
                _ => {},
            }
        }
        off = end;
        left = left - 1;
    }
    proof {
        assert(refs_from(buf@, off as int, 0) =~= Seq::empty());
        assert(ref_views(out@) + Seq::<RootRefView>::empty() =~= ref_views(out@));
    }
    out
}

/// The greatest child ID of some references.
pub open spec fn max_child(v: Seq<RootRefView>) -> int
    decreases v.len(),
{
    if v.len() == 0 {
        -1
    } else if v.last().child_id > max_child(v.drop_last()) {
        v.last().child_id as int
    } else {
        max_child(v.drop_last())
    }
}

/// Take in one search result: its references are added to `refs`. Returns the
/// child ID from which the next search goes on, or `None` if there is nothing
/// more to search.
pub fn take_page(refs: &mut Vec<RootRef>, buf: &[u8], nr_items: u32) -> (r: Option<u64>)
    ensures
        ref_views(final(refs)@) == ref_views(old(refs)@) + refs_from(buf@, 0, nr_items as nat),
        ({
            let top = max_child(refs_from(buf@, 0, nr_items as nat));
            match r {
                Some(next) => 0 <= top < u64::MAX && next == top + 1,
                None => top < 0 || top == u64::MAX,
            }
        }),
{
    let mut batch = parse_root_refs(buf, nr_items);
    let ghost all = ref_views(batch@);
    let mut top: Option<u64> = None;
    let mut i: usize = 0;
    proof {
        assert(all.take(0) =~= Seq::empty());
    }
    while i < batch.len()
        invariant
            i <= batch.len(),
            all == ref_views(batch@),
            match top {
                Some(t) => max_child(all.take(i as int)) == t,
                None => max_child(all.take(i as int)) == -1,
            },
        decreases batch.len() - i,
    {
        let c: u64 = batch[i].child_id;
        proof {
            assert(all.take(i + 1).drop_last() =~= all.take(i as int));
            assert(all.take(i + 1).last() == batch@[i as int]@);
        }
        top = match top {
            Some(t) => if c > t {
                Some(c)
            } else {
                Some(t)
            },
            None => Some(c),
        };
        i = i + 1;
    }
    proof {
        assert(all.take(all.len() as int) =~= all);
    }
    let ghost before = ref_views(refs@);
    refs.append(&mut batch);
    assert(ref_views(refs@) =~= before + all);
    match top {
        Some(t) => if t == u64::MAX {
            None
        } else {
            Some(t + 1)
        },
        None => None,
    }
}

/// The bytes before the first zero byte.
pub open spec fn until_nul(s: Seq<u8>) -> Seq<u8>
    decreases s.len(),
{
    if s.len() == 0 || s[0] == 0 {
        Seq::empty()
    } else {
        seq![s[0]] + until_nul(s.skip(1))
    }
}

proof fn lemma_until_nul(s: Seq<u8>, i: int)
    requires
        0 <= i <= s.len(),
        forall|j: int| 0 <= j < i ==> s[j] != 0,
        i < s.len() ==> s[i] == 0,
    ensures
        until_nul(s) == s.subrange(0, i),
    decreases i,
{
    if i == 0 {
        assert(s.subrange(0, 0) =~= Seq::empty());
    } else {
        lemma_until_nul(s.skip(1), i - 1);
        assert(seq![s[0]] + s.skip(1).subrange(0, i - 1) =~= s.subrange(0, i));
    }
}

/// Extract the path out of the name field of an `INO_LOOKUP` result.
pub fn ino_path_bytes(name: &[u8]) -> (r: &[u8])
    ensures
        r@ == until_nul(name@),
{
    let mut end: usize = 0;
    while end < name.len() && name[end] != 0
        invariant
            end <= name.len(),
            forall|j: int| 0 <= j < end ==> name@[j] != 0,
        decreases name.len() - end,
    {
        end = end + 1;
    }
    proof {
        lemma_until_nul(name@, end as int);
    }
    slice_subrange(name, 0, end)
}

/// A directory path joined with the name of an entry: one slash between them,
/// none before a name at the root.
pub open spec fn rel_path(dir: Seq<u8>, name: Seq<u8>) -> Seq<u8> {
    if dir.len() == 0 || dir.last() == 0x2f {
        dir + name
    } else {
        dir.push(0x2f) + name
    }
}

/// Join an `INO_LOOKUP` directory path (such as `var/lib/`, empty at the
/// subvolume root) with a child subvolume's name into a path relative to the
/// subvolume root.
pub fn assemble_rel_path(dir: &[u8], name: &[u8]) -> (r: Vec<u8>)
    ensures
        r@ == rel_path(dir@, name@),
{
    let mut bytes = slice_to_vec(dir);
    let n: usize = dir.len();
    if n > 0 && dir[n - 1] != 0x2f {
        bytes.push(0x2f);
    }
    let mut tail = slice_to_vec(name);
    bytes.append(&mut tail);
    bytes
}

} // verus!
