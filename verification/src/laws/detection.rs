//! What is detected of a system, said of the table of its mounts.

use vstd::prelude::*;
use vstd::string::*;

use crate::init::{
    built_config, dash_index, detection_fault, efi_mount_of, is_detected, mount_of, mounted_at,
    mounts_of, without_slashes, DetectedConfig, MountView,
};
use crate::lines::{lines_of, words};
use crate::path::{path_join, path_of, path_text};
use crate::text::opt_view;

verus! {

proof fn lemma_dash(fields: Seq<Seq<char>>)
    ensures
        0 <= dash_index(fields) <= fields.len(),
        forall|j: int| 0 <= j < dash_index(fields) ==> #[trigger] fields[j] != "-"@,
        dash_index(fields) < fields.len() ==> fields[dash_index(fields)] == "-"@,
    decreases fields.len(),
{
    if fields.len() > 0 && fields[0] != "-"@ {
        lemma_dash(fields.skip(1));
        let k = dash_index(fields.skip(1));
        assert forall|j: int| 0 <= j < dash_index(fields) implies #[trigger] fields[j] != "-"@ by {
            if j > 0 {
                assert(fields.skip(1)[j - 1] == fields[j]);
            }
        }
        if k < fields.skip(1).len() {
            assert(fields.skip(1)[k] == fields[k + 1]);
        }
    }
}

/// A line of the table is an entry exactly if it has at least six fields, one
/// of which is a lone dash with three more behind it. The fourth and the fifth
/// field are the root and the mount point; the three behind the first lone dash
/// are the type, the source and the options.
pub proof fn law_mount_fields(fields: Seq<Seq<char>>, k: int)
    requires
        0 <= k < fields.len(),
        fields[k] == "-"@,
        forall|j: int| 0 <= j < k ==> #[trigger] fields[j] != "-"@,
    ensures
        mount_of(fields) is Some <==> fields.len() >= 6 && fields.len() >= k + 4,
        mount_of(fields) matches Some(m) ==> m.root == fields[3] && m.mount_point == fields[4]
            && m.fs_type == fields[k + 1] && m.mount_source == fields[k + 2] && m.super_options
            == fields[k + 3],
{
    lemma_dash(fields);
    let d = dash_index(fields);
    if d < k {
        assert(fields[d] == "-"@);
    } else if d > k {
        assert(fields[k] != "-"@);
    }
}

/// A line without a lone dash is no entry.
pub proof fn law_no_dash_no_mount(fields: Seq<Seq<char>>)
    requires
        !fields.contains("-"@),
    ensures
        mount_of(fields) is None,
{
    lemma_dash(fields);
    let d = dash_index(fields);
    if d < fields.len() {
        assert(fields[d] == "-"@);
    }
}

/// The table holds the entries of its lines, and no others.
pub proof fn law_mount_table(lines: Seq<Seq<char>>, m: MountView)
    ensures
        mounts_of(lines).contains(m) <==> exists|i: int|
            0 <= i < lines.len() && mount_of(words(#[trigger] lines[i])) == Some(m),
    decreases lines.len(),
{
    if lines.len() > 0 {
        let u = lines.drop_last();
        law_mount_table(u, m);
        let (all, first) = (mounts_of(lines), mounts_of(u));
        let last = lines[lines.len() - 1];
        if first.contains(m) {
            let k = choose|k: int| 0 <= k < first.len() && first[k] == m;
            assert(all[k] == m);
            let i = choose|i: int| 0 <= i < u.len() && mount_of(words(#[trigger] u[i])) == Some(m);
            assert(mount_of(words(lines[i])) == Some(m));
        } else if all.contains(m) {
            let k = choose|k: int| 0 <= k < all.len() && all[k] == m;
            if k < first.len() {
                assert(first[k] == m);
            }
            assert(mount_of(words(last)) == Some(m));
        }
        if exists|i: int| 0 <= i < lines.len() && mount_of(words(#[trigger] lines[i])) == Some(m) {
            let i = choose|i: int|
                0 <= i < lines.len() && mount_of(words(#[trigger] lines[i])) == Some(m);
            if i < u.len() {
                assert(mount_of(words(u[i])) == Some(m));
            } else {
                assert(all[first.len() as int] == m);
            }
        }
    }
}

proof fn lemma_mounted_at(v: Seq<MountView>, point: Seq<char>, kind: Option<Seq<char>>)
    ensures
        mounted_at(v, point, kind) is Some <==> exists|i: int|
            0 <= i < v.len() && (#[trigger] v[i]).mount_point == point && (kind matches Some(k)
                ==> v[i].fs_type == k),
        mounted_at(v, point, kind) matches Some(m) ==> exists|i: int|
            0 <= i < v.len() && m == #[trigger] v[i] && m.mount_point == point && (
            kind matches Some(k) ==> m.fs_type == k) && forall|j: int|
                0 <= j < i ==> !((#[trigger] v[j]).mount_point == point && (kind matches Some(k)
                    ==> v[j].fs_type == k)),
    decreases v.len(),
{
    if v.len() > 0 {
        let t = v.skip(1);
        lemma_mounted_at(t, point, kind);
        if v[0].mount_point == point && (kind matches Some(k) ==> v[0].fs_type == k) {
            assert(mounted_at(v, point, kind) == Some(v[0]));
        } else {
            if mounted_at(t, point, kind) is Some {
                let m = mounted_at(t, point, kind)->0;
                let i = choose|i: int|
                    0 <= i < t.len() && m == #[trigger] t[i] && m.mount_point == point && (
                    kind matches Some(k) ==> m.fs_type == k) && forall|j: int|
                        0 <= j < i ==> !((#[trigger] t[j]).mount_point == point && (
                        kind matches Some(k) ==> t[j].fs_type == k));
                assert(v[i + 1] == m);
                assert forall|j: int| 0 <= j < i + 1 implies !((#[trigger] v[j]).mount_point
                    == point && (kind matches Some(k) ==> v[j].fs_type == k)) by {
                    if j > 0 {
                        assert(t[j - 1] == v[j]);
                    }
                }
            }
            if exists|i: int|
                0 <= i < v.len() && (#[trigger] v[i]).mount_point == point && (kind matches Some(k)
                    ==> v[i].fs_type == k) {
                let i = choose|i: int|
                    0 <= i < v.len() && (#[trigger] v[i]).mount_point == point && (
                    kind matches Some(k) ==> v[i].fs_type == k);
                assert(t[i - 1] == v[i]);
            }
        }
    }
}

/// The EFI partition is found exactly if a vfat filesystem is mounted at
/// `/boot`, `/boot/efi` or `/efi`; where several are, the first of these counts.
pub proof fn law_efi_partition(v: Seq<MountView>)
    ensures
        efi_mount_of(v) is None <==> forall|i: int|
            0 <= i < v.len() ==> !((#[trigger] v[i]).fs_type == "vfat"@ && (v[i].mount_point
                == "/boot"@ || v[i].mount_point == "/boot/efi"@ || v[i].mount_point == "/efi"@)),
        efi_mount_of(v) matches Some(p) ==> (exists|i: int|
            0 <= i < v.len() && (#[trigger] v[i]).fs_type == "vfat"@ && v[i].mount_point == p),
        efi_mount_of(v) == Some("/boot"@) <==> exists|i: int|
            0 <= i < v.len() && (#[trigger] v[i]).fs_type == "vfat"@ && v[i].mount_point
                == "/boot"@,
        (exists|i: int|
            0 <= i < v.len() && (#[trigger] v[i]).fs_type == "vfat"@ && v[i].mount_point
                == "/boot/efi"@) && efi_mount_of(v) != Some("/boot"@) <==> efi_mount_of(v) == Some(
            "/boot/efi"@,
        ),
        efi_mount_of(v) matches Some(p) ==> p == "/boot"@ || p == "/boot/efi"@ || p == "/efi"@,
{
    reveal_strlit("/boot");
    reveal_strlit("/boot/efi");
    reveal_strlit("/efi");
    lemma_mounted_at(v, "/boot"@, Some("vfat"@));
    lemma_mounted_at(v, "/boot/efi"@, Some("vfat"@));
    lemma_mounted_at(v, "/efi"@, Some("vfat"@));
    assert("/boot"@.len() == 5);
    assert("/boot/efi"@.len() == 9);
    assert("/efi"@.len() == 4);
}

proof fn lemma_slashes(s: Seq<char>)
    ensures
        without_slashes(s).len() == 0 || without_slashes(s)[0] != '/',
        without_slashes(s).len() <= s.len(),
        s.skip(s.len() - without_slashes(s).len()) == without_slashes(s),
        forall|i: int| 0 <= i < s.len() - without_slashes(s).len() ==> #[trigger] s[i] == '/',
    decreases s.len(),
{
    if s.len() > 0 && s[0] == '/' {
        let t = s.skip(1);
        lemma_slashes(t);
        let r = without_slashes(s);
        assert(s.skip(s.len() - r.len()) =~= t.skip(t.len() - r.len()));
        assert forall|i: int| 0 <= i < s.len() - r.len() implies #[trigger] s[i] == '/' by {
            if i > 0 {
                assert(t[i - 1] == s[i]);
            }
        }
    } else {
        assert(s.skip(0) =~= s);
    }
}

/// A system is detected exactly if the first entry mounted at `/` is btrfs and
/// the UUID of its device is known. Its subvolume is the root of that entry
/// without the slashes it begins with.
pub proof fn law_root_is_detected(mountinfo: Seq<char>, device_uuid: Option<Seq<char>>)
    ensures
        ({
            let v = mounts_of(lines_of(mountinfo));
            &&& detection_fault(mountinfo, device_uuid) is None <==> device_uuid is Some && exists|
                i: int,
            |
                0 <= i < v.len() && (#[trigger] v[i]).mount_point == "/"@ && v[i].fs_type
                    == "btrfs"@ && forall|j: int|
                    0 <= j < i ==> (#[trigger] v[j]).mount_point != "/"@
            &&& detection_fault(mountinfo, device_uuid) matches Some(e) ==> e is Config
        }),
{
    let v = mounts_of(lines_of(mountinfo));
    lemma_mounted_at(v, "/"@, None);
    let root = mounted_at(v, "/"@, None);
    if root is Some {
        let m = root->0;
        let i = choose|i: int|
            0 <= i < v.len() && m == #[trigger] v[i] && m.mount_point == "/"@ && forall|j: int|
                0 <= j < i ==> !((#[trigger] v[j]).mount_point == "/"@);
        assert(v[i] == m);
        assert forall|k: int|
            0 <= k < v.len() && (#[trigger] v[k]).mount_point == "/"@ && (forall|j: int|
                0 <= j < k ==> (#[trigger] v[j]).mount_point != "/"@) implies k == i by {
            if k < i {
                assert(v[k].mount_point != "/"@);
            } else if i < k {
                assert(v[i].mount_point != "/"@);
            }
        }
    }
}

/// What is detected: the subvolume and the EFI partition that the table shows,
/// and systemd-boot or GRUB where a configuration file of it is there.
pub proof fn law_detected(
    mountinfo: Seq<char>,
    device_uuid: Option<Seq<char>>,
    existing: Seq<Seq<char>>,
    d: DetectedConfig,
)
    requires
        is_detected(mountinfo, device_uuid, existing, d),
    ensures
        ({
            let v = mounts_of(lines_of(mountinfo));
            &&& d.backend@ == "btrfs"@
            &&& device_uuid == Some(d.device_uuid@)
            &&& exists|i: int, k: int|
                0 <= i < v.len() && 0 <= k <= v[i].root.len() && (#[trigger] v[i]).mount_point
                    == "/"@ && d.rootfs_subvol@ == #[trigger] v[i].root.skip(k) && (forall|j: int|
                    0 <= j < k ==> v[i].root[j] == '/')
            &&& d.rootfs_subvol@.len() == 0 || d.rootfs_subvol@[0] != '/'
            &&& d.efi is Some <==> exists|i: int|
                0 <= i < v.len() && (#[trigger] v[i]).fs_type == "vfat"@ && (v[i].mount_point
                    == "/boot"@ || v[i].mount_point == "/boot/efi"@ || v[i].mount_point
                    == "/efi"@)
            &&& d.efi matches Some(e) ==> exists|i: int|
                0 <= i < v.len() && (#[trigger] v[i]).fs_type == "vfat"@ && v[i].mount_point
                    == e.mount_point@
            &&& opt_view(d.bootloader) == Some("systemd-boot"@) <==> (d.efi matches Some(e)
                && existing.contains(
                path_text(path_join(path_of(e.mount_point@), "loader/loader.conf"@)),
            ))
            &&& d.bootloader is None <==> !existing.contains("/boot/grub/grub.cfg"@)
                && !existing.contains("/boot/grub2/grub.cfg"@) && (d.efi matches Some(e)
                ==> !existing.contains(
                path_text(path_join(path_of(e.mount_point@), "loader/loader.conf"@)),
            ) && !existing.contains(
                path_text(path_join(path_of(e.mount_point@), "grub/grub.cfg"@)),
            ))
            &&& d.bootloader matches Some(b) ==> b@ == "systemd-boot"@ || b@ == "grub"@
        }),
{
    let v = mounts_of(lines_of(mountinfo));
    law_efi_partition(v);
    lemma_mounted_at(v, "/"@, None);
    let m = mounted_at(v, "/"@, None)->0;
    let i = choose|i: int|
        0 <= i < v.len() && m == #[trigger] v[i] && m.mount_point == "/"@ && forall|j: int|
            0 <= j < i ==> !((#[trigger] v[j]).mount_point == "/"@);
    lemma_slashes(m.root);
    let k = m.root.len() - without_slashes(m.root).len();
    assert(v[i].root.skip(k) == d.rootfs_subvol@);
    reveal_strlit("systemd-boot");
    reveal_strlit("grub");
    assert("systemd-boot"@.len() == 12);
    assert("grub"@.len() == 4);
}

/// The configuration made of what was detected: the strain `default` takes the
/// rootfs subvolume, keeps the last ten snapshots, and syncs EFI exactly if an
/// EFI partition was found, at the place where it was found.
pub proof fn law_built_config(d: DetectedConfig)
    ensures
        ({
            let c = built_config(d);
            &&& c.strain.len() == 1
            &&& c.strain[0].0 == "default"@
            &&& c.strain[0].1.subvolumes == seq![d.rootfs_subvol@]
            &&& c.strain[0].1.efi == (d.efi is Some)
            &&& c.strain[0].1.retain.last == 10
            &&& c.strain[0].1.retain.hourly == 0 && c.strain[0].1.retain.daily == 0
            &&& c.strain[0].1.retain.weekly == 0 && c.strain[0].1.retain.monthly == 0
            &&& c.strain[0].1.retain.yearly == 0
            &&& c.sys.rootfs_subvol == d.rootfs_subvol@
            &&& c.sys.snapshot_subvol == "@snapshots"@
            &&& c.sys.device_uuid == d.device_uuid@
            &&& c.sys.backend == d.backend@
            &&& c.sys.efi_enabled == (d.efi is Some)
            &&& d.efi matches Some(e) ==> c.sys.efi_mount == e.mount_point@
            &&& c.sys.staging_subvol == "@boot"@
            &&& c.sys.auto_apply_retention
            &&& c.sys.tombstone_max_age_days == 14
            &&& d.bootloader matches Some(b) ==> c.sys.bootloader == b@
        }),
{
}

} // verus!
