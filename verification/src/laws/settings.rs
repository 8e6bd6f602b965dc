//! Which configurations and records are accepted, and what is read from them.

use vstd::prelude::*;
use vstd::string::*;

use crate::assoc::lookup;
use crate::backend::{outside, FsState};
use crate::config::{
    config_fault, decode_config, decode_retain, decode_strain, decode_sys, strain_fault,
    strains_fault, ConfigView, RetainConfig, StrainView, SysView,
};
use crate::daemon::config_edit::{
    config_edited, law_edit_reads_back, parsed, retention_fault, retention_set, DocNode,
};
use crate::document::Toml;
use crate::laws::health::occurs;
use crate::metadata::{decode_meta, message_items, MetaView, TriggerKind};
use crate::path::{path_of, within, PathView};
use crate::text::joined;

verus! {

/// Whether a name is made of letters, digits and underscores.
pub open spec fn is_plain_name(s: Seq<char>) -> bool {
    s.len() > 0 && forall|i: int|
        0 <= i < s.len() ==> ('a' <= #[trigger] s[i] <= 'z') || ('A' <= s[i] <= 'Z') || ('0' <= s[i]
            <= '9') || s[i] == '_'
}

proof fn lemma_strains_fault(sys: SysView, s: Seq<(Seq<char>, StrainView)>)
    ensures
        strains_fault(sys, s) is None <==> forall|i: int|
            0 <= i < s.len() ==> strain_fault(sys, (#[trigger] s[i]).0, s[i].1) is None,
        strains_fault(sys, s) matches Some(m) ==> exists|i: int|
            0 <= i < s.len() && strain_fault(sys, (#[trigger] s[i]).0, s[i].1) == Some(m)
                && forall|j: int|
                0 <= j < i ==> strain_fault(sys, (#[trigger] s[j]).0, s[j].1) is None,
    decreases s.len(),
{
    if s.len() > 0 {
        let t = s.skip(1);
        lemma_strains_fault(sys, t);
        if strain_fault(sys, s[0].0, s[0].1) is None {
            if strains_fault(sys, t) is None {
                assert forall|i: int| 0 <= i < s.len() implies strain_fault(
                    sys,
                    (#[trigger] s[i]).0,
                    s[i].1,
                ) is None by {
                    if i > 0 {
                        assert(t[i - 1] == s[i]);
                    }
                }
            } else {
                let m = strains_fault(sys, t)->0;
                let i = choose|i: int|
                    0 <= i < t.len() && strain_fault(sys, (#[trigger] t[i]).0, t[i].1) == Some(m)
                        && forall|j: int|
                        0 <= j < i ==> strain_fault(sys, (#[trigger] t[j]).0, t[j].1) is None;
                assert(s[i + 1] == t[i]);
                assert forall|j: int| 0 <= j < i + 1 implies strain_fault(
                    sys,
                    (#[trigger] s[j]).0,
                    s[j].1,
                ) is None by {
                    if j > 0 {
                        assert(t[j - 1] == s[j]);
                    }
                }
            }
        } else {
            assert(strain_fault(sys, s[0].0, s[0].1) == strains_fault(sys, s));
        }
    }
}

/// A configuration is accepted exactly if the rootfs and snapshot subvolumes
/// are named, the filesystem is btrfs, and there is a strain; and every strain
/// has a plain name other than `DELETE`, keeps something, has a subvolume, and
/// syncs EFI only where the system does. Any bootloader will do.
pub proof fn law_accepted_config(c: ConfigView)
    ensures
        config_fault(c) is None <==> {
            &&& c.sys.rootfs_subvol.len() > 0
            &&& c.sys.snapshot_subvol.len() > 0
            &&& c.sys.backend == "btrfs"@
            &&& c.strain.len() > 0
            &&& forall|i: int|
                0 <= i < c.strain.len() ==> {
                    let (name, s) = #[trigger] c.strain[i];
                    &&& is_plain_name(name)
                    &&& name != "DELETE"@
                    &&& s.retain.last > 0 || s.retain.hourly > 0 || s.retain.daily > 0
                        || s.retain.weekly > 0 || s.retain.monthly > 0 || s.retain.yearly > 0
                    &&& s.subvolumes.len() > 0
                    &&& s.efi ==> c.sys.efi_enabled
                }
        },
{
    lemma_strains_fault(c.sys, c.strain);
    assert forall|i: int| 0 <= i < c.strain.len() implies (strain_fault(
        c.sys,
        (#[trigger] c.strain[i]).0,
        c.strain[i].1,
    ) is None <==> {
        let (name, s) = c.strain[i];
        &&& is_plain_name(name)
        &&& name != "DELETE"@
        &&& s.retain.last > 0 || s.retain.hourly > 0 || s.retain.daily > 0 || s.retain.weekly > 0
            || s.retain.monthly > 0 || s.retain.yearly > 0
        &&& s.subvolumes.len() > 0
        &&& s.efi ==> c.sys.efi_enabled
    }) by {
        let name = c.strain[i].0;
        if crate::snapshot::id::is_token(name) {
            assert forall|k: int| 0 <= k < name.len() implies ('a' <= #[trigger] name[k] <= 'z')
                || ('A' <= name[k] <= 'Z') || ('0' <= name[k] <= '9') || name[k] == '_' by {
                assert(crate::snapshot::id::is_token_char(name[k]));
            }
        }
        if is_plain_name(name) {
            assert forall|k: int| 0 <= k < name.len() implies crate::snapshot::id::is_token_char(
                #[trigger] name[k],
            ) by {}
        }
    }
    if config_fault(c) is None {
        assert forall|i: int| 0 <= i < c.strain.len() implies ({
            let (name, s) = #[trigger] c.strain[i];
            &&& is_plain_name(name)
            &&& name != "DELETE"@
            &&& s.retain.last > 0 || s.retain.hourly > 0 || s.retain.daily > 0 || s.retain.weekly
                > 0 || s.retain.monthly > 0 || s.retain.yearly > 0
            &&& s.subvolumes.len() > 0
            &&& s.efi ==> c.sys.efi_enabled
        }) by {
            assert(strain_fault(c.sys, c.strain[i].0, c.strain[i].1) is None);
        }
    }
}

/// Where the fault is a strain's, the message names the first faulty strain.
pub proof fn law_fault_names_its_strain(c: ConfigView)
    requires
        c.sys.rootfs_subvol.len() > 0,
        c.sys.snapshot_subvol.len() > 0,
        c.sys.backend == "btrfs"@,
        c.strain.len() > 0,
    ensures
        config_fault(c) matches Some(m) ==> exists|i: int|
            0 <= i < c.strain.len() && occurs("'"@ + (#[trigger] c.strain[i]).0 + "'"@, m)
                && strain_fault(c.sys, c.strain[i].0, c.strain[i].1) == Some(m),
{
    lemma_strains_fault(c.sys, c.strain);
    if config_fault(c) is Some {
        let m = config_fault(c)->0;
        let i = choose|i: int|
            0 <= i < c.strain.len() && strain_fault(c.sys, (#[trigger] c.strain[i]).0, c.strain[i].1)
                == Some(m) && forall|j: int|
                0 <= j < i ==> strain_fault(c.sys, (#[trigger] c.strain[j]).0, c.strain[j].1)
                    is None;
        let n = c.strain[i].0;
        reveal_strlit("'");
        reveal_strlit("invalid strain name '");
        reveal_strlit("': only [a-zA-Z0-9_] allowed");
        reveal_strlit("strain '");
        reveal_strlit("': retain config must have at least one field > 0");
        reveal_strlit("': subvolumes must not be empty");
        reveal_strlit("' has efi = true but sys.efi.enabled is false");
        let part = "'"@ + n + "'"@;
        let a = if m[0] == 'i' {
            "invalid strain name "@
        } else {
            "strain "@
        };
        reveal_strlit("invalid strain name ");
        reveal_strlit("strain ");
        let b = m.skip((a.len() + part.len()) as int);
        assert(m =~= a + part + b);
    }
}

/// The system settings are read under their own keys. Where one is not given,
/// the rootfs subvolume is `@`, the snapshot subvolume `@snapshots`, retention
/// is applied after each snapshot, tombstones are kept for 14 days, the
/// filesystem is btrfs, EFI sync is off with `/boot` and `@boot`, and the
/// bootloader is systemd-boot. The device's UUID must be given.
pub proof fn law_system_settings(
    doc: Seq<(Seq<char>, Toml)>,
    c: ConfigView,
    t: Seq<(Seq<char>, Toml)>,
    rootfs: Seq<(Seq<char>, Toml)>,
    efi: Seq<(Seq<char>, Toml)>,
    boot: Seq<(Seq<char>, Toml)>,
)
    requires
        decode_config(doc) == Some(c),
        lookup(doc, "sys"@) == Some(Toml::Table(t)),
        lookup(t, "rootfs"@) == Some(Toml::Table(rootfs)),
        lookup(t, "efi"@) == Some(Toml::Table(efi)),
        lookup(t, "bootloader"@) == Some(Toml::Table(boot)),
    ensures
        lookup(t, "rootfs_subvol"@) == Some(Toml::Text(c.sys.rootfs_subvol)) || (lookup(
            t,
            "rootfs_subvol"@,
        ) is None && c.sys.rootfs_subvol == "@"@),
        lookup(t, "snapshot_subvol"@) == Some(Toml::Text(c.sys.snapshot_subvol)) || (lookup(
            t,
            "snapshot_subvol"@,
        ) is None && c.sys.snapshot_subvol == "@snapshots"@),
        lookup(t, "auto_apply_retention"@) == Some(Toml::Boolean(c.sys.auto_apply_retention)) || (
        lookup(t, "auto_apply_retention"@) is None && c.sys.auto_apply_retention),
        lookup(t, "tombstone_max_age_days"@) == Some(
            Toml::Integer(c.sys.tombstone_max_age_days as int),
        ) || (lookup(t, "tombstone_max_age_days"@) is None && c.sys.tombstone_max_age_days == 14),
        lookup(rootfs, "backend"@) == Some(Toml::Text(c.sys.backend)) || (lookup(
            rootfs,
            "backend"@,
        ) is None && c.sys.backend == "btrfs"@),
        lookup(rootfs, "device_uuid"@) == Some(Toml::Text(c.sys.device_uuid)),
        lookup(efi, "enabled"@) == Some(Toml::Boolean(c.sys.efi_enabled)) || (lookup(
            efi,
            "enabled"@,
        ) is None && !c.sys.efi_enabled),
        lookup(efi, "mount_point"@) == Some(Toml::Text(c.sys.efi_mount)) || (lookup(
            efi,
            "mount_point"@,
        ) is None && c.sys.efi_mount == "/boot"@),
        lookup(efi, "staging_subvol"@) == Some(Toml::Text(c.sys.staging_subvol)) || (lookup(
            efi,
            "staging_subvol"@,
        ) is None && c.sys.staging_subvol == "@boot"@),
        lookup(boot, "backend"@) == Some(Toml::Text(c.sys.bootloader)) || (lookup(
            boot,
            "backend"@,
        ) is None && c.sys.bootloader == "systemd-boot"@),
{
}

/// A tier is the number given under its name, or 0.
pub open spec fn tier_read(u: Seq<(Seq<char>, Toml)>, key: Seq<char>, n: usize) -> bool {
    lookup(u, key) == Some(Toml::Integer(n as int)) || (lookup(u, key) is None && n == 0)
}

/// A strain is read with its subvolumes in order, which must be given; EFI sync
/// is off where it is not given. Without a policy, the last ten snapshots are
/// kept; in a policy, a tier that is not given is 0.
pub proof fn law_strain_settings(t: Seq<(Seq<char>, Toml)>, s: StrainView)
    requires
        decode_strain(Toml::Table(t)) == Some(s),
    ensures
        lookup(t, "subvolumes"@) matches Some(Toml::Array(a)) && a.len() == s.subvolumes.len()
            && forall|i: int| 0 <= i < a.len() ==> #[trigger] a[i] == Toml::Text(s.subvolumes[i]),
        lookup(t, "efi"@) == Some(Toml::Boolean(s.efi)) || (lookup(t, "efi"@) is None && !s.efi),
        s.display_name matches Some(n) ==> lookup(t, "display_name"@) == Some(Toml::Text(n)),
        s.display_name is None <==> lookup(t, "display_name"@) is None,
        lookup(t, "retain"@) is None ==> s.retain.last == 10 && s.retain.hourly == 0
            && s.retain.daily == 0 && s.retain.weekly == 0 && s.retain.monthly == 0
            && s.retain.yearly == 0,
        lookup(t, "retain"@) matches Some(Toml::Table(u)) ==> tier_read(u, "last"@, s.retain.last)
            && tier_read(u, "hourly"@, s.retain.hourly) && tier_read(u, "daily"@, s.retain.daily)
            && tier_read(u, "weekly"@, s.retain.weekly) && tier_read(
            u,
            "monthly"@,
            s.retain.monthly,
        ) && tier_read(u, "yearly"@, s.retain.yearly),
        lookup(t, "retain"@) matches Some(Toml::Array(u)) ==> (u.len() > 0 ==> u[0] == Toml::Integer(
            s.retain.last as int,
        )) && (u.len() > 1 ==> u[1] == Toml::Integer(s.retain.hourly as int)) && (u.len() > 2
            ==> u[2] == Toml::Integer(s.retain.daily as int)) && (u.len() > 3 ==> u[3]
            == Toml::Integer(s.retain.weekly as int)) && (u.len() > 4 ==> u[4] == Toml::Integer(
            s.retain.monthly as int,
        )) && (u.len() > 5 ==> u[5] == Toml::Integer(s.retain.yearly as int)),
{
    let a = lookup(t, "subvolumes"@)->0->Array_0;
    assert forall|i: int| 0 <= i < a.len() implies #[trigger] a[i] == Toml::Text(
        s.subvolumes[i],
    ) by {
        assert(a[i] is Text);
    }
    if lookup(t, "retain"@) is Some && lookup(t, "retain"@)->0 is Array {
        let u = lookup(t, "retain"@)->0->Array_0;
        let f = crate::document::fields_of(Toml::Array(u), crate::config::retain_fields())->0;
        reveal_strlit("last");
        reveal_strlit("hourly");
        reveal_strlit("daily");
        reveal_strlit("weekly");
        reveal_strlit("monthly");
        reveal_strlit("yearly");
        assert("last"@.len() == 4 && "daily"@.len() == 5 && "monthly"@.len() == 7);
        assert("hourly"@[0] == 'h' && "weekly"@[0] == 'w' && "yearly"@[0] == 'y');
        assert("hourly"@.len() == 6 && "weekly"@.len() == 6 && "yearly"@.len() == 6);
        if u.len() > 0 {
            crate::assoc::lemma_lookup_at(f, "last"@, 0);
        }
        if u.len() > 1 {
            crate::assoc::lemma_lookup_at(f, "hourly"@, 1);
        }
        if u.len() > 2 {
            crate::assoc::lemma_lookup_at(f, "daily"@, 2);
        }
        if u.len() > 3 {
            crate::assoc::lemma_lookup_at(f, "weekly"@, 3);
        }
        if u.len() > 4 {
            crate::assoc::lemma_lookup_at(f, "monthly"@, 4);
        }
        if u.len() > 5 {
            crate::assoc::lemma_lookup_at(f, "yearly"@, 5);
        }
    }
}

/// A record is read under its own keys. The time must be given; where they are
/// not, the version is 1, the trigger unknown, there are no notes, and the
/// snapshot is not protected.
pub proof fn law_record_read(t: Seq<(Seq<char>, Toml)>, m: MetaView)
    requires
        decode_meta(t) == Some(m),
    ensures
        lookup(t, "schema_version"@) == Some(Toml::Integer(m.schema_version as int)) || (lookup(
            t,
            "schema_version"@,
        ) is None && m.schema_version == 1),
        lookup(t, "created_at"@) matches Some(Toml::Text(s)) && crate::clock::wall_time_of(s)
            == Some(m.created_at),
        lookup(t, "trigger"@) is None ==> m.trigger == TriggerKind::Unknown,
        lookup(t, "trigger"@) matches Some(Toml::Text(s)) ==> s == (match m.trigger {
            TriggerKind::Manual => "manual"@,
            TriggerKind::Pacman => "pacman"@,
            TriggerKind::SystemdBoot => "systemd-boot"@,
            TriggerKind::SystemdPeriodic => "systemd-periodic"@,
            TriggerKind::Restore => "restore"@,
            TriggerKind::Unknown => "unknown"@,
        }),
        lookup(t, "message"@) is None ==> m.message.len() == 0,
        lookup(t, "message"@) matches Some(v) ==> (v matches Toml::Array(a) && a.len()
            == m.message.len() && forall|i: int|
            0 <= i < a.len() ==> #[trigger] a[i] == Toml::Text(m.message[i])),
        lookup(t, "protected"@) == Some(Toml::Boolean(m.protected)) || (lookup(t, "protected"@)
            is None && !m.protected),
{
    if lookup(t, "message"@) is Some {
        let a = lookup(t, "message"@)->0->Array_0;
        assert forall|i: int| 0 <= i < a.len() implies #[trigger] a[i] == Toml::Text(
            m.message[i],
        ) by {
            assert(a[i] is Text);
        }
    }
}

/// Notes on one line: none give nothing, up to three are all shown, and of more
/// the first two and how many more there are.
pub proof fn law_notes_on_one_line(items: Seq<Seq<char>>)
    ensures
        message_items(items) is None <==> items.len() == 0,
        items.len() == 1 ==> message_items(items) == Some(items[0]),
        items.len() == 2 ==> message_items(items) == Some(items[0] + ", "@ + items[1]),
        items.len() == 3 ==> message_items(items) == Some(
            items[0] + ", "@ + items[1] + ", "@ + items[2],
        ),
        items.len() > 3 ==> message_items(items) == Some(
            items[0] + ", "@ + items[1] + ", +"@ + crate::text::dec((items.len() - 2) as nat),
        ),
{
    reveal_with_fuel(joined, 4);
    if items.len() == 1 {
        assert(joined(items, ", "@) =~= items[0]);
    } else if items.len() == 2 {
        assert(joined(items, ", "@) =~= items[0] + ", "@ + items[1]);
    } else if items.len() == 3 {
        assert(joined(items, ", "@) =~= items[0] + ", "@ + items[1] + ", "@ + items[2]);
    }
}

/// Whether a setting is not given, or given as a whole number that fits.
pub open spec fn is_count(t: Seq<(Seq<char>, Toml)>, key: Seq<char>, max: int) -> bool {
    match lookup(t, key) {
        None => true,
        Some(Toml::Integer(i)) => 0 <= i <= max,
        Some(_) => false,
    }
}

/// Whether a setting is not given, or given as a truth value.
pub open spec fn is_flag(t: Seq<(Seq<char>, Toml)>, key: Seq<char>) -> bool {
    lookup(t, key) matches Some(v) ==> v is Boolean
}

/// Whether a setting is not given, or given as a text.
pub open spec fn is_text(t: Seq<(Seq<char>, Toml)>, key: Seq<char>) -> bool {
    lookup(t, key) matches Some(v) ==> v is Text
}

/// Whether a text names a trigger.
pub open spec fn names_trigger(s: Seq<char>) -> bool {
    s == "manual"@ || s == "pacman"@ || s == "systemd-boot"@ || s == "systemd-periodic"@ || s
        == "restore"@ || s == "unknown"@
}

/// A record is read exactly if it has a time that can be read, and each other
/// field, where it is given, has its type. A trigger may be a text, or a table
/// with that text as its only key and nothing under it.
pub proof fn law_readable_record(t: Seq<(Seq<char>, Toml)>)
    ensures
        decode_meta(t) is Some <==> {
            &&& is_count(t, "schema_version"@, u32::MAX as int)
            &&& lookup(t, "created_at"@) matches Some(Toml::Text(s))
                && crate::clock::wall_time_of(s) is Some
            &&& match lookup(t, "trigger"@) {
                None => true,
                Some(Toml::Text(s)) => names_trigger(s),
                Some(Toml::Table(u)) => u.len() == 1 && names_trigger(u[0].0) && (
                u[0].1 == Toml::Table(Seq::empty()) || u[0].1 == Toml::Array(Seq::empty())),
                Some(_) => false,
            }
            &&& lookup(t, "message"@) matches Some(v) ==> (v matches Toml::Array(a) && forall|
                i: int,
            |
                0 <= i < a.len() ==> #[trigger] a[i] is Text)
            &&& is_flag(t, "protected"@)
        },
{
    match lookup(t, "trigger"@) {
        Some(Toml::Table(u)) => {
            if u.len() == 1 {
                match u[0].1 {
                    Toml::Table(x) => {
                        if x.len() == 0 {
                            assert(x =~= Seq::empty());
                        }
                    },
                    Toml::Array(x) => {
                        if x.len() == 0 {
                            assert(x =~= Seq::empty());
                        }
                    },
                    _ => {},
                }
            }
        },
        _ => {},
    }
}

proof fn lemma_readable_policy(t: Seq<(Seq<char>, Toml)>)
    requires
        lookup(t, "retain"@) matches Some(v) ==> !(v is Array) && !(v is Date),
    ensures
        decode_retain(t) is Some <==> (lookup(t, "retain"@) matches Some(v) ==> (
        v matches Toml::Table(u) && is_count(u, "last"@, usize::MAX as int) && is_count(
            u,
            "hourly"@,
            usize::MAX as int,
        ) && is_count(u, "daily"@, usize::MAX as int) && is_count(u, "weekly"@, usize::MAX as int)
            && is_count(u, "monthly"@, usize::MAX as int) && is_count(
            u,
            "yearly"@,
            usize::MAX as int,
        ))),
{
}

/// A strain is read exactly if its subvolumes are given as texts, and each other
/// field, where it is given, has its type. No tier may be negative, and 0 is a
/// count. A policy that is given as an array or as a date is left out here.
pub proof fn law_readable_strain(t: Seq<(Seq<char>, Toml)>)
    requires
        lookup(t, "retain"@) matches Some(v) ==> !(v is Array) && !(v is Date),
    ensures
        decode_strain(Toml::Table(t)) is Some <==> {
            &&& is_text(t, "display_name"@)
            &&& is_flag(t, "efi"@)
            &&& lookup(t, "subvolumes"@) matches Some(Toml::Array(a)) && forall|i: int|
                0 <= i < a.len() ==> #[trigger] a[i] is Text
            &&& lookup(t, "retain"@) matches Some(v) ==> (v matches Toml::Table(u) && is_count(
                u,
                "last"@,
                usize::MAX as int,
            ) && is_count(u, "hourly"@, usize::MAX as int) && is_count(
                u,
                "daily"@,
                usize::MAX as int,
            ) && is_count(u, "weekly"@, usize::MAX as int) && is_count(
                u,
                "monthly"@,
                usize::MAX as int,
            ) && is_count(u, "yearly"@, usize::MAX as int))
        },
{
    lemma_readable_policy(t);
    assert(crate::document::fields_of(Toml::Table(t), crate::config::strain_fields()) == Some(t));
}

/// The system settings are read exactly if the device's UUID is given as a text,
/// and each other setting, where it is given, has its type.
pub proof fn law_readable_system(
    doc: Seq<(Seq<char>, Toml)>,
    t: Seq<(Seq<char>, Toml)>,
    rootfs: Seq<(Seq<char>, Toml)>,
    efi: Seq<(Seq<char>, Toml)>,
    boot: Seq<(Seq<char>, Toml)>,
)
    requires
        lookup(doc, "sys"@) == Some(Toml::Table(t)),
        lookup(t, "rootfs"@) == Some(Toml::Table(rootfs)),
        lookup(t, "efi"@) == Some(Toml::Table(efi)),
        lookup(t, "bootloader"@) == Some(Toml::Table(boot)),
    ensures
        decode_sys(doc) is Some <==> {
            &&& is_text(t, "rootfs_subvol"@)
            &&& is_text(t, "snapshot_subvol"@)
            &&& is_flag(t, "auto_apply_retention"@)
            &&& is_count(t, "tombstone_max_age_days"@, u32::MAX as int)
            &&& is_text(rootfs, "backend"@)
            &&& lookup(rootfs, "device_uuid"@) matches Some(v) && v is Text
            &&& is_flag(efi, "enabled"@)
            &&& is_text(efi, "mount_point"@)
            &&& is_text(efi, "staging_subvol"@)
            &&& is_text(boot, "backend"@)
        },
        decode_config(doc) matches Some(c) ==> decode_sys(doc) == Some(c.sys),
{
}

/// Whether a document has the tier `key` of a strain's policy with the given
/// count: 0 is not written, and no more than a document can hold is.
pub open spec fn tier_written(
    m: Map<PathView, DocNode>,
    strain: Seq<char>,
    key: Seq<char>,
    n: usize,
) -> bool {
    let p = seq!["strain"@, strain, "retain"@, key];
    &&& n == 0 <==> !m.contains_key(p)
    &&& 0 < n <= i64::MAX ==> m[p] == DocNode::Number(n as int)
    &&& n > i64::MAX ==> m[p] == DocNode::Number(i64::MAX as int)
}

/// Setting a policy rewrites the configuration file and nothing else. What is
/// read from it then is the policy that was set, tier by tier, and every value
/// and comment outside the strain's policy as it was.
pub proof fn law_policy_written(
    a: FsState,
    b: FsState,
    strain: Seq<char>,
    r: RetainConfig,
    q: PathView,
)
    requires
        config_edited(a, b, strain, r),
    ensures
        ({
            let p = path_of("/etc/revenant/config.toml"@);
            let (old_doc, new_doc) = (parsed(a.files[p]), parsed(b.files[p]));
            &&& a.files.contains_key(p) && b.files.contains_key(p)
            &&& b.subvols == a.subvols && b.default_subvol == a.default_subvol
            &&& q != p ==> (b.files.contains_key(q) <==> a.files.contains_key(q)) && (
            a.files.contains_key(q) ==> b.files[q] == a.files[q])
            &&& old_doc is Ok && new_doc is Ok
            &&& tier_written(new_doc->Ok_0.nodes, strain, "last"@, r.last)
            &&& tier_written(new_doc->Ok_0.nodes, strain, "hourly"@, r.hourly)
            &&& tier_written(new_doc->Ok_0.nodes, strain, "daily"@, r.daily)
            &&& tier_written(new_doc->Ok_0.nodes, strain, "weekly"@, r.weekly)
            &&& tier_written(new_doc->Ok_0.nodes, strain, "monthly"@, r.monthly)
            &&& tier_written(new_doc->Ok_0.nodes, strain, "yearly"@, r.yearly)
            &&& !within(q, seq!["strain"@, strain, "retain"@]) ==> {
                &&& old_doc->Ok_0.nodes.contains_key(q) && !(old_doc->Ok_0.nodes[q] is Table)
                    ==> new_doc->Ok_0.nodes.contains_key(q) && new_doc->Ok_0.nodes[q]
                    == old_doc->Ok_0.nodes[q]
                &&& new_doc->Ok_0.nodes.contains_key(q) ==> old_doc->Ok_0.nodes.contains_key(q)
                &&& old_doc->Ok_0.comments.contains_key(q) <==> new_doc->Ok_0.comments.contains_key(
                    q,
                )
                &&& old_doc->Ok_0.comments.contains_key(q) ==> new_doc->Ok_0.comments[q]
                    == old_doc->Ok_0.comments[q]
            }
        }),
{
    let p = path_of("/etc/revenant/config.toml"@);
    let text = choose|text: Seq<char>| #[trigger]
        retention_set(a.files[p], text, strain, r) && b == (FsState {
            files: a.files.insert(p, text),
            ..a
        });
    let (old_doc, new_doc) = (parsed(a.files[p])->Ok_0, parsed(text)->Ok_0);
    law_edit_reads_back(old_doc.nodes, new_doc.nodes, strain, r);
    if !within(q, seq!["strain"@, strain, "retain"@]) {
        let (x, y) = (
            outside(old_doc.comments, seq!["strain"@, strain, "retain"@]),
            outside(new_doc.comments, seq!["strain"@, strain, "retain"@]),
        );
        assert(x == y);
        assert(x.contains_key(q) <==> old_doc.comments.contains_key(q));
        assert(y.contains_key(q) <==> new_doc.comments.contains_key(q));
        if x.contains_key(q) {
            assert(x[q] == old_doc.comments[q] && y[q] == new_doc.comments[q]);
        }
    }
}

/// A policy can be set exactly if the configuration file is there and is a
/// document with a table for the strain, in which the policy, if there is one,
/// is a table too.
pub proof fn law_policy_can_be_set(st: FsState, strain: Seq<char>)
    ensures
        retention_fault(st, strain) is None <==> {
            let p = path_of("/etc/revenant/config.toml"@);
            &&& st.files.contains_key(p)
            &&& parsed(st.files[p]) matches Ok(d) && {
                &&& d.nodes.contains_key(seq!["strain"@]) && d.nodes[seq!["strain"@]] is Table
                &&& d.nodes.contains_key(seq!["strain"@, strain]) && d.nodes[seq![
                    "strain"@,
                    strain,
                ]] is Table
                &&& d.nodes.contains_key(seq!["strain"@, strain, "retain"@]) ==> d.nodes[seq![
                    "strain"@,
                    strain,
                    "retain"@,
                ]] is Table
            }
        },
{
}

} // verus!
