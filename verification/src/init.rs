//! Detection of the system's layout, and the configuration made from it.

use vstd::prelude::*;
use vstd::string::*;

use crate::assoc::{distinct_keys, lemma_lookup_at, lemma_lookup_none};
use crate::config::{
    config_fault, decode_config, decode_retain, decode_strain, decode_strains, decode_sys,
    default_retain, strain_views, strains_fault, texts_of, valid_strain_name, BootloaderConfig,
    Config, ConfigView, EfiConfig, RetainConfig, RootfsConfig, StrainConfig, StrainMap, StrainView,
    SysConfig, SysView,
};
use crate::document::{
    all_quotes_fit, entries, is_comment_block, is_plain, is_regular, lemma_entries, lemma_trees,
    quotes_fit, render_toml, renderable, table, text_quotes_fit, texts_quotes_fit, toml_document,
    toml_text, tree, trees, usual_depth, Toml, TomlEntry, TomlValue,
};
use crate::error::{ErrorView, Result, RevenantError};
use crate::lines::{lines_of, split_lines, split_words, words};
use crate::path::{path_join, path_of, FsPath};
use crate::snapshot::id::is_token;
use crate::text::{
    cat2, chars_of, contains_text, opt_str, opt_view, same_text, text_of, views,
};

verus! {

/// Detected EFI configuration.
#[derive(Debug)]
pub struct DetectedEfi {
    pub mount_point: String,
}

/// Detected system configuration.
#[derive(Debug)]
pub struct DetectedConfig {
    pub backend: String,
    pub device_uuid: String,
    pub rootfs_subvol: String,
    pub efi: Option<DetectedEfi>,
    pub bootloader: Option<String>,
}

/// A parsed entry of `/proc/self/mountinfo`.
#[derive(Debug)]
pub struct MountInfoEntry {
    pub root: String,
    pub mount_point: String,
    pub fs_type: String,
    pub mount_source: String,
    pub super_options: String,
}

/// A mount entry with its texts.
pub struct MountView {
    pub root: Seq<char>,
    pub mount_point: Seq<char>,
    pub fs_type: Seq<char>,
    pub mount_source: Seq<char>,
    pub super_options: Seq<char>,
}

impl View for MountInfoEntry {
    type V = MountView;

    open spec fn view(&self) -> MountView {
        MountView {
            root: self.root@,
            mount_point: self.mount_point@,
            fs_type: self.fs_type@,
            mount_source: self.mount_source@,
            super_options: self.super_options@,
        }
    }
}

/// The entries of a list.
pub open spec fn mount_views(v: Seq<MountInfoEntry>) -> Seq<MountView> {
    Seq::new(v.len(), |i: int| v[i]@)
}

/// The index of the first field that is a lone dash, or the number of fields.
pub open spec fn dash_index(fields: Seq<Seq<char>>) -> int
    decreases fields.len(),
{
    if fields.len() == 0 || fields[0] == "-"@ {
        0
    } else {
        1 + dash_index(fields.skip(1))
    }
}

/// The entry that the fields of a line give: the root and the mount point
/// before a lone dash, the type, source and options after it.
pub open spec fn mount_of(fields: Seq<Seq<char>>) -> Option<MountView> {
    let sep = dash_index(fields);
    if fields.len() < 6 || sep >= fields.len() || fields.len() < sep + 4 {
        None
    } else {
        Some(
            MountView {
                root: fields[3],
                mount_point: fields[4],
                fs_type: fields[sep + 1],
                mount_source: fields[sep + 2],
                super_options: fields[sep + 3],
            },
        )
    }
}

/// The entries that the first lines give, in order.
pub open spec fn mounts_of(lines: Seq<Seq<char>>) -> Seq<MountView>
    decreases lines.len(),
{
    if lines.len() == 0 {
        Seq::empty()
    } else {
        let rest = mounts_of(lines.drop_last());
        match mount_of(words(lines.last())) {
            Some(m) => rest.push(m),
            None => rest,
        }
    }
}

proof fn lemma_dash_index(fields: Seq<Seq<char>>, i: int)
    requires
        0 <= i <= fields.len(),
        forall|j: int| 0 <= j < i ==> #[trigger] fields[j] != "-"@,
        i < fields.len() ==> fields[i] == "-"@,
    ensures
        dash_index(fields) == i,
    decreases i,
{
    if i > 0 {
        assert(fields[0] != "-"@);
        assert forall|j: int| 0 <= j < i - 1 implies #[trigger] fields.skip(1)[j] != "-"@ by {
            assert(fields.skip(1)[j] == fields[j + 1]);
        }
        lemma_dash_index(fields.skip(1), i - 1);
    }
}

fn mount_from(fields: &Vec<String>) -> (r: Option<MountInfoEntry>)
    ensures
        match r {
            Some(m) => mount_of(views(fields@)) == Some(m@),
            None => mount_of(views(fields@)) is None,
        },
{
    if fields.len() < 6 {
        return None;
    }
    let ghost all = views(fields@);
    let mut sep: usize = 0;
    while sep < fields.len() && !same_text(fields[sep].as_str(), "-")
        invariant
            sep <= fields.len(),
            all == views(fields@),
            forall|j: int| 0 <= j < sep ==> #[trigger] all[j] != "-"@,
        decreases fields.len() - sep,
    {
        assert(all[sep as int] == fields@[sep as int]@);
        sep = sep + 1;
    }
    proof {
        if sep < fields.len() {
            assert(all[sep as int] == fields@[sep as int]@);
        }
        lemma_dash_index(all, sep as int);
    }
    if sep >= fields.len() || fields.len() - sep < 4 {
        return None;
    }
    Some(
        MountInfoEntry {
            root: fields[3].clone(),
            mount_point: fields[4].clone(),
            fs_type: fields[sep + 1].clone(),
            mount_source: fields[sep + 2].clone(),
            super_options: fields[sep + 3].clone(),
        },
    )
}

/// Parse the content of `/proc/self/mountinfo`. A line that is shaped
/// otherwise is skipped.
pub fn parse_mountinfo_content(content: &str) -> (r: Vec<MountInfoEntry>)
    ensures
        mount_views(r@) == mounts_of(lines_of(content@)),
{
    let lines = split_lines(content);
    let ghost all = views(lines@);
    let mut out: Vec<MountInfoEntry> = Vec::new();
    let mut i: usize = 0;
    proof {
        assert(all.take(0) =~= Seq::empty());
        assert(mount_views(out@) =~= Seq::empty());
    }
    while i < lines.len()
        invariant
            i <= lines.len(),
            all == views(lines@),
            mount_views(out@) == mounts_of(all.take(i as int)),
        decreases lines.len() - i,
    {
        let fields = split_words(lines[i].as_str());
        proof {
            assert(all.take(i + 1).drop_last() =~= all.take(i as int));
            assert(all.take(i + 1).last() == lines@[i as int]@);
        }
        match mount_from(&fields) {
            Some(m) => {
                let ghost before = mount_views(out@);
                out.push(m);
                assert(mount_views(out@) =~= before.push(m@));
            },
            None => {},
        }
        i = i + 1;
    }
    assert(all.take(all.len() as int) =~= all);
    out
}

/// The first entry mounted at `point`, and of the given type where one is
/// given.
pub open spec fn mounted_at(
    v: Seq<MountView>,
    point: Seq<char>,
    kind: Option<Seq<char>>,
) -> Option<MountView>
    decreases v.len(),
{
    if v.len() == 0 {
        None
    } else if v[0].mount_point == point && (kind is None || v[0].fs_type == kind->Some_0) {
        Some(v[0])
    } else {
        mounted_at(v.skip(1), point, kind)
    }
}

fn find_mount<'a>(v: &'a Vec<MountInfoEntry>, point: &str, kind: Option<&str>) -> (r: Option<
    &'a MountInfoEntry,
>)
    ensures
        match r {
            Some(m) => mounted_at(mount_views(v@), point@, opt_str(kind)) == Some(m@),
            None => mounted_at(mount_views(v@), point@, opt_str(kind)) is None,
        },
{
    let ghost all = mount_views(v@);
    let mut i: usize = 0;
    proof {
        assert(all.skip(0) =~= all);
    }
    while i < v.len()
        invariant
            i <= v.len(),
            all == mount_views(v@),
            mounted_at(all, point@, opt_str(kind)) == mounted_at(
                all.skip(i as int),
                point@,
                opt_str(kind),
            ),
        decreases v.len() - i,
    {
        proof {
            assert(all.skip(i as int)[0] == v@[i as int]@);
            assert(all.skip(i as int).skip(1) =~= all.skip(i + 1));
        }
        let right_kind: bool = match kind {
            Some(k) => same_text(v[i].fs_type.as_str(), k),
            None => true,
        };
        if same_text(v[i].mount_point.as_str(), point) && right_kind {
            return Some(&v[i]);
        }
        i = i + 1;
    }
    None
}

/// Detect whether root is on btrfs.
pub fn detect_backend(entries: &Vec<MountInfoEntry>) -> (r: Option<String>)
    ensures
        match r {
            Some(s) => s@ == "btrfs"@ && (mounted_at(mount_views(entries@), "/"@, None) matches Some(
                m,
            ) && m.fs_type == "btrfs"@),
            None => !(mounted_at(mount_views(entries@), "/"@, None) matches Some(m) && m.fs_type
                == "btrfs"@),
        },
{
    match find_mount(entries, "/", None) {
        Some(m) => if same_text(m.fs_type.as_str(), "btrfs") {
            Some("btrfs".to_owned())
        } else {
            None
        },
        None => None,
    }
}

/// `s` without leading slashes.
pub open spec fn without_slashes(s: Seq<char>) -> Seq<char>
    decreases s.len(),
{
    if s.len() > 0 && s[0] == '/' {
        without_slashes(s.skip(1))
    } else {
        s
    }
}

proof fn lemma_without_slashes(s: Seq<char>, i: int)
    requires
        0 <= i <= s.len(),
        forall|j: int| 0 <= j < i ==> s[j] == '/',
        i < s.len() ==> s[i] != '/',
    ensures
        without_slashes(s) == s.subrange(i, s.len() as int),
    decreases i,
{
    if i == 0 {
        assert(s.subrange(0, s.len() as int) =~= s);
    } else {
        lemma_without_slashes(s.skip(1), i - 1);
        assert(s.skip(1).subrange(i - 1, s.len() - 1) =~= s.subrange(i, s.len() as int));
    }
}

fn strip_slashes(s: &str) -> (r: String)
    ensures
        r@ == without_slashes(s@),
{
    let v = chars_of(s);
    let mut i: usize = 0;
    while i < v.len() && v[i] == '/'
        invariant
            i <= v.len(),
            forall|j: int| 0 <= j < i ==> v@[j] == '/',
        decreases v.len() - i,
    {
        i = i + 1;
    }
    proof {
        lemma_without_slashes(s@, i as int);
    }
    text_of(&v, i, v.len())
}

/// Detect the root mount: its device and the subvolume it shows.
pub fn detect_root_mount(entries: &Vec<MountInfoEntry>) -> (r: Option<(String, String)>)
    ensures
        match r {
            Some((device, subvol)) => mounted_at(mount_views(entries@), "/"@, None) matches Some(m)
                && device@ == m.mount_source && subvol@ == without_slashes(m.root),
            None => mounted_at(mount_views(entries@), "/"@, None) is None,
        },
{
    match find_mount(entries, "/", None) {
        Some(m) => Some((m.mount_source.clone(), strip_slashes(m.root.as_str()))),
        None => None,
    }
}

/// Where the EFI system partition is mounted: the first of the usual places
/// with a vfat filesystem.
pub open spec fn efi_mount_of(v: Seq<MountView>) -> Option<Seq<char>> {
    if mounted_at(v, "/boot"@, Some("vfat"@)) is Some {
        Some("/boot"@)
    } else if mounted_at(v, "/boot/efi"@, Some("vfat"@)) is Some {
        Some("/boot/efi"@)
    } else if mounted_at(v, "/efi"@, Some("vfat"@)) is Some {
        Some("/efi"@)
    } else {
        None
    }
}

/// Detect an EFI system partition mount.
pub fn detect_efi(entries: &Vec<MountInfoEntry>) -> (r: Option<DetectedEfi>)
    ensures
        match r {
            Some(e) => efi_mount_of(mount_views(entries@)) == Some(e.mount_point@),
            None => efi_mount_of(mount_views(entries@)) is None,
        },
        r is Some <==> exists|i: int|
            0 <= i < entries@.len() && (#[trigger] entries@[i])@.fs_type == "vfat"@ && (
            entries@[i]@.mount_point == "/boot"@ || entries@[i]@.mount_point == "/boot/efi"@
                || entries@[i]@.mount_point == "/efi"@),
        r matches Some(e) ==> exists|i: int|
            0 <= i < entries@.len() && (#[trigger] entries@[i])@.fs_type == "vfat"@
                && entries@[i]@.mount_point == e.mount_point@,
{
    proof {
        let v = mount_views(entries@);
        crate::laws::detection::law_efi_partition(v);
        assert forall|i: int| 0 <= i < v.len() implies #[trigger] v[i] == entries@[i]@ by {}
        if exists|i: int|
            0 <= i < entries@.len() && (#[trigger] entries@[i])@.fs_type == "vfat"@ && (
            entries@[i]@.mount_point == "/boot"@ || entries@[i]@.mount_point == "/boot/efi"@
                || entries@[i]@.mount_point == "/efi"@) {
            let i = choose|i: int|
                0 <= i < entries@.len() && (#[trigger] entries@[i])@.fs_type == "vfat"@ && (
                entries@[i]@.mount_point == "/boot"@ || entries@[i]@.mount_point == "/boot/efi"@
                    || entries@[i]@.mount_point == "/efi"@);
            assert(v[i] == entries@[i]@);
        }
        if efi_mount_of(v) is Some {
            let p = efi_mount_of(v)->0;
            let i = choose|i: int|
                0 <= i < v.len() && (#[trigger] v[i]).fs_type == "vfat"@ && v[i].mount_point == p;
            assert(entries@[i]@ == v[i]);
        }
    }
    if find_mount(entries, "/boot", Some("vfat")).is_some() {
        return Some(DetectedEfi { mount_point: "/boot".to_owned() });
    }
    if find_mount(entries, "/boot/efi", Some("vfat")).is_some() {
        return Some(DetectedEfi { mount_point: "/boot/efi".to_owned() });
    }
    if find_mount(entries, "/efi", Some("vfat")).is_some() {
        return Some(DetectedEfi { mount_point: "/efi".to_owned() });
    }
    None
}

/// A file below a mount point.
pub open spec fn below(mount: Seq<char>, rel: Seq<char>) -> Seq<char> {
    crate::path::path_text(path_join(path_of(mount), rel))
}

/// The bootloader that the existing files tell of: systemd-boot by its
/// configuration on the EFI partition, GRUB by its configuration in `/boot` or
/// on the EFI partition.
pub open spec fn bootloader_of(
    efi_mount: Option<Seq<char>>,
    existing: Seq<Seq<char>>,
) -> Option<Seq<char>> {
    if efi_mount is Some && existing.contains(below(efi_mount->Some_0, "loader/loader.conf"@)) {
        Some("systemd-boot"@)
    } else if existing.contains("/boot/grub/grub.cfg"@) || existing.contains(
        "/boot/grub2/grub.cfg"@,
    ) {
        Some("grub"@)
    } else if efi_mount is Some && existing.contains(below(efi_mount->Some_0, "grub/grub.cfg"@)) {
        Some("grub"@)
    } else {
        None
    }
}

/// The files whose existence tells the bootloader.
pub fn bootloader_probes(efi_mount: Option<&str>) -> (r: Vec<String>)
    ensures
        efi_mount is None ==> views(r@) == seq!["/boot/grub/grub.cfg"@, "/boot/grub2/grub.cfg"@],
        efi_mount is Some ==> views(r@) == seq![
            "/boot/grub/grub.cfg"@,
            "/boot/grub2/grub.cfg"@,
            below(efi_mount->Some_0@, "loader/loader.conf"@),
            below(efi_mount->Some_0@, "grub/grub.cfg"@),
        ],
{
    let mut out: Vec<String> = Vec::new();
    out.push("/boot/grub/grub.cfg".to_owned());
    out.push("/boot/grub2/grub.cfg".to_owned());
    match efi_mount {
        Some(m) => {
            let base = FsPath::new(m);
            out.push(base.join("loader/loader.conf").display());
            out.push(base.join("grub/grub.cfg").display());
            assert(views(out@) =~= seq![
                "/boot/grub/grub.cfg"@,
                "/boot/grub2/grub.cfg"@,
                below(m@, "loader/loader.conf"@),
                below(m@, "grub/grub.cfg"@),
            ]);
        },
        None => {
            assert(views(out@) =~= seq!["/boot/grub/grub.cfg"@, "/boot/grub2/grub.cfg"@]);
        },
    }
    out
}

/// Detect the bootloader, given which of the probed files exist. The result is
/// informational.
pub fn detect_bootloader_with(efi_mount: Option<&str>, existing: &Vec<String>) -> (r: Option<
    String,
>)
    ensures
        opt_view(r) == bootloader_of(opt_str(efi_mount), views(existing@)),
{
    match efi_mount {
        Some(m) => {
            let loader = FsPath::new(m).join("loader/loader.conf").display();
            if contains_text(existing, loader.as_str()) {
                return Some("systemd-boot".to_owned());
            }
        },
        None => {},
    }
    if contains_text(existing, "/boot/grub/grub.cfg") || contains_text(
        existing,
        "/boot/grub2/grub.cfg",
    ) {
        return Some("grub".to_owned());
    }
    match efi_mount {
        Some(m) => {
            let grub = FsPath::new(m).join("grub/grub.cfg").display();
            if contains_text(existing, grub.as_str()) {
                return Some("grub".to_owned());
            }
        },
        None => {},
    }
    None
}

/// What keeps a system from being detected, if anything.
pub open spec fn detection_fault(mountinfo: Seq<char>, device_uuid: Option<Seq<char>>) -> Option<
    ErrorView,
> {
    let root = mounted_at(mounts_of(lines_of(mountinfo)), "/"@, None);
    if !(root is Some && root->Some_0.fs_type == "btrfs"@) {
        Some(ErrorView::Config("root filesystem is not btrfs"@))
    } else if device_uuid is None {
        Some(
            ErrorView::Config(
                "could not determine UUID for device: "@ + root->Some_0.mount_source,
            ),
        )
    } else {
        None
    }
}

/// Whether `d` is what is detected of a system.
pub open spec fn is_detected(
    mountinfo: Seq<char>,
    device_uuid: Option<Seq<char>>,
    existing: Seq<Seq<char>>,
    d: DetectedConfig,
) -> bool {
    let v = mounts_of(lines_of(mountinfo));
    let root = mounted_at(v, "/"@, None);
    &&& detection_fault(mountinfo, device_uuid) is None
    &&& d.backend@ == "btrfs"@
    &&& d.device_uuid@ == device_uuid->Some_0
    &&& d.rootfs_subvol@ == without_slashes(root->Some_0.root)
    &&& (match d.efi {
        Some(e) => efi_mount_of(v) == Some(e.mount_point@),
        None => efi_mount_of(v) is None,
    })
    &&& opt_view(d.bootloader) == bootloader_of(efi_mount_of(v), existing)
}

/// Orchestrate full system detection, given the content of
/// `/proc/self/mountinfo`, the UUID of the root device if it could be told,
/// and which of the files that tell the bootloader exist.
pub fn detect_all(mountinfo: &str, device_uuid: Option<&str>, existing: &Vec<String>) -> (r: Result<
    DetectedConfig,
>)
    ensures
        match r {
            Ok(d) => is_detected(mountinfo@, opt_str(device_uuid), views(existing@), d),
            Err(e) => detection_fault(mountinfo@, opt_str(device_uuid)) == Some(e@),
        },
{
    let list = parse_mountinfo_content(mountinfo);
    let backend = match detect_backend(&list) {
        Some(b) => b,
        None => {
            return Err(RevenantError::Config("root filesystem is not btrfs".to_owned()));
        },
    };
    let (device, rootfs_subvol) = match detect_root_mount(&list) {
        Some(p) => p,
        None => {
            return Err(RevenantError::Config("could not determine root mount".to_owned()));
        },
    };
    let uuid: String = match device_uuid {
        Some(u) => u.to_owned(),
        None => {
            return Err(
                RevenantError::Config(
                    cat2("could not determine UUID for device: ", device.as_str()),
                ),
            );
        },
    };
    let efi = detect_efi(&list);
    let bootloader = match &efi {
        Some(e) => detect_bootloader_with(Some(e.mount_point.as_str()), existing),
        None => detect_bootloader_with(None, existing),
    };
    Ok(DetectedConfig { backend, device_uuid: uuid, rootfs_subvol, efi, bootloader })
}

/// The configuration made from detected values: one strain `default` for the
/// rootfs subvolume.
pub open spec fn built_config(d: DetectedConfig) -> ConfigView {
    let efi = d.efi is Some;
    ConfigView {
        sys: SysView {
            rootfs_subvol: d.rootfs_subvol@,
            snapshot_subvol: "@snapshots"@,
            auto_apply_retention: true,
            tombstone_max_age_days: 14,
            backend: d.backend@,
            device_uuid: d.device_uuid@,
            efi_enabled: efi,
            efi_mount: if efi {
                d.efi->Some_0.mount_point@
            } else {
                "/boot"@
            },
            staging_subvol: "@boot"@,
            bootloader: match d.bootloader {
                Some(b) => b@,
                None => "unknown"@,
            },
        },
        strain: seq![
            (
                "default"@,
                StrainView {
                    display_name: None,
                    retain: default_retain(),
                    subvolumes: seq![d.rootfs_subvol@],
                    efi,
                },
            ),
        ],
    }
}

/// Build a configuration from detected values.
#[must_use]
pub fn build_config(detected: DetectedConfig) -> (r: Config)
    ensures
        r@ == built_config(detected),
{
    let efi_enabled: bool = detected.efi.is_some();
    let efi_mount: String = match &detected.efi {
        Some(e) => e.mount_point.clone(),
        None => "/boot".to_owned(),
    };
    let backend: String = match &detected.bootloader {
        Some(b) => b.clone(),
        None => "unknown".to_owned(),
    };
    let mut subvolumes: Vec<String> = Vec::new();
    subvolumes.push(detected.rootfs_subvol.clone());
    assert(views(subvolumes@) =~= seq![detected.rootfs_subvol@]);
    let sys = SysConfig {
        rootfs_subvol: detected.rootfs_subvol.clone(),
        snapshot_subvol: "@snapshots".to_owned(),
        auto_apply_retention: true,
        tombstone_max_age_days: 14,
        rootfs: RootfsConfig {
            backend: detected.backend.clone(),
            device_uuid: detected.device_uuid.clone(),
        },
        efi: EfiConfig {
            enabled: efi_enabled,
            mount_point: efi_mount,
            staging_subvol: "@boot".to_owned(),
        },
        bootloader: BootloaderConfig { backend },
    };
    let s = StrainConfig {
        display_name: None,
        retain: RetainConfig::default(),
        subvolumes,
        efi: efi_enabled,
    };
    let mut strain = StrainMap::new();
    strain.insert("default".to_owned(), s);
    assert(strain@ =~= built_config(detected).strain);
    Config { sys, strain }
}


/// The comment that a generated configuration file begins with.
pub const CONFIG_HEADER: &'static str =
    "# Revenant configuration\n# Generated by: revenantctl init\n# Review and adjust as needed.\n\n";

/// The table of a retention policy.
pub open spec fn encode_retain(r: RetainConfig) -> Seq<(Seq<char>, Toml)> {
    seq![
        ("last"@, Toml::Integer(r.last as int)),
        ("hourly"@, Toml::Integer(r.hourly as int)),
        ("daily"@, Toml::Integer(r.daily as int)),
        ("weekly"@, Toml::Integer(r.weekly as int)),
        ("monthly"@, Toml::Integer(r.monthly as int)),
        ("yearly"@, Toml::Integer(r.yearly as int)),
    ]
}

/// The array of some texts.
pub open spec fn encode_texts(v: Seq<Seq<char>>) -> Toml {
    Toml::Array(Seq::new(v.len(), |i: int| Toml::Text(v[i])))
}

/// The table of a strain.
pub open spec fn encode_strain(s: StrainView) -> Seq<(Seq<char>, Toml)> {
    let rest = seq![
        ("subvolumes"@, encode_texts(s.subvolumes)),
        ("efi"@, Toml::Boolean(s.efi)),
        ("retain"@, Toml::Table(encode_retain(s.retain))),
    ];
    match s.display_name {
        Some(n) => seq![("display_name"@, Toml::Text(n))] + rest,
        None => rest,
    }
}

/// The table of the strains.
pub open spec fn encode_strains(s: Seq<(Seq<char>, StrainView)>) -> Seq<(Seq<char>, Toml)> {
    Seq::new(s.len(), |i: int| (s[i].0, Toml::Table(encode_strain(s[i].1))))
}

/// The table of the system settings.
pub open spec fn encode_sys(s: SysView) -> Seq<(Seq<char>, Toml)> {
    seq![
        ("rootfs_subvol"@, Toml::Text(s.rootfs_subvol)),
        ("snapshot_subvol"@, Toml::Text(s.snapshot_subvol)),
        ("auto_apply_retention"@, Toml::Boolean(s.auto_apply_retention)),
        ("tombstone_max_age_days"@, Toml::Integer(s.tombstone_max_age_days as int)),
        (
            "rootfs"@,
            Toml::Table(
                seq![
                    ("backend"@, Toml::Text(s.backend)),
                    ("device_uuid"@, Toml::Text(s.device_uuid)),
                ],
            ),
        ),
        (
            "efi"@,
            Toml::Table(
                seq![
                    ("enabled"@, Toml::Boolean(s.efi_enabled)),
                    ("mount_point"@, Toml::Text(s.efi_mount)),
                    ("staging_subvol"@, Toml::Text(s.staging_subvol)),
                ],
            ),
        ),
        ("bootloader"@, Toml::Table(seq![("backend"@, Toml::Text(s.bootloader))])),
    ]
}

/// The document of a configuration.
pub open spec fn encode_config(c: ConfigView) -> Seq<(Seq<char>, Toml)> {
    seq![
        ("sys"@, Toml::Table(encode_sys(c.sys))),
        ("strain"@, Toml::Table(encode_strains(c.strain))),
    ]
}

/// Whether the tiers of a policy fit a TOML integer.
pub open spec fn retain_fits(r: RetainConfig) -> bool {
    &&& r.last <= i64::MAX
    &&& r.hourly <= i64::MAX
    &&& r.daily <= i64::MAX
    &&& r.weekly <= i64::MAX
    &&& r.monthly <= i64::MAX
    &&& r.yearly <= i64::MAX
}

/// Whether the tiers of all policies fit a TOML integer.
pub open spec fn tiers_fit(c: ConfigView) -> bool {
    forall|i: int| 0 <= i < c.strain.len() ==> retain_fits((#[trigger] c.strain[i]).1.retain)
}

/// Whether the texts of the system settings hold no long run of one quote.
pub open spec fn sys_texts_fit(s: SysView) -> bool {
    &&& quotes_fit(s.rootfs_subvol)
    &&& quotes_fit(s.snapshot_subvol)
    &&& quotes_fit(s.backend)
    &&& quotes_fit(s.device_uuid)
    &&& quotes_fit(s.efi_mount)
    &&& quotes_fit(s.staging_subvol)
    &&& quotes_fit(s.bootloader)
}

/// Whether the texts of a strain hold no long run of one quote.
pub open spec fn strain_texts_fit(s: StrainView) -> bool {
    &&& s.display_name matches Some(n) ==> quotes_fit(n)
    &&& all_quotes_fit(s.subvolumes)
}

/// Whether the texts of a configuration hold no long run of one quote.
pub open spec fn texts_fit(c: ConfigView) -> bool {
    &&& sys_texts_fit(c.sys)
    &&& forall|i: int| 0 <= i < c.strain.len() ==> strain_texts_fit((#[trigger] c.strain[i]).1)
}

/// Whether a TOML document can hold a configuration: its numbers and its runs
/// of quotes are not too large.
pub open spec fn config_fits(c: ConfigView) -> bool {
    tiers_fit(c) && texts_fit(c)
}

/// Whether a configuration is valid and can be written so that reading gives it
/// back.
pub open spec fn writable(c: ConfigView) -> bool {
    config_fault(c) is None && config_fits(c)
}

/// Whether reading a text gives a configuration.
pub open spec fn reads_as(text: Seq<char>, c: ConfigView) -> bool {
    toml_document(text) is Ok && decode_config(toml_document(text)->Ok_0) == Some(c)
}

fn entry(key: &str, value: TomlValue) -> (r: TomlEntry)
    ensures
        r.key@ == key@,
        r.value == value,
{
    TomlEntry { key: key.to_owned(), value }
}

fn text_value(s: &String) -> (r: TomlValue)
    ensures
        tree(r) == Toml::Text(s@),
{
    TomlValue::Text(s.clone())
}

fn tier_value(n: usize) -> (r: Option<TomlValue>)
    ensures
        match r {
            Some(v) => n <= i64::MAX && tree(v) == Toml::Integer(n as int),
            None => n > i64::MAX,
        },
{
    if n as u64 <= i64::MAX as u64 {
        Some(TomlValue::Integer(n as i64))
    } else {
        None
    }
}

fn retain_table(r: &RetainConfig) -> (t: Option<Vec<TomlEntry>>)
    ensures
        match t {
            Some(v) => retain_fits(*r) && table(v) == encode_retain(*r),
            None => !retain_fits(*r),
        },
{
    let a = tier_value(r.last)?;
    let b = tier_value(r.hourly)?;
    let c = tier_value(r.daily)?;
    let d = tier_value(r.weekly)?;
    let e = tier_value(r.monthly)?;
    let f = tier_value(r.yearly)?;
    let mut t: Vec<TomlEntry> = Vec::new();
    t.push(entry("last", a));
    t.push(entry("hourly", b));
    t.push(entry("daily", c));
    t.push(entry("weekly", d));
    t.push(entry("monthly", e));
    t.push(entry("yearly", f));
    proof {
        lemma_entries(t, t.len() as nat);
        assert(table(t) =~= encode_retain(*r));
    }
    Some(t)
}

fn texts_value(v: &Vec<String>) -> (r: TomlValue)
    ensures
        tree(r) == encode_texts(views(v@)),
{
    let mut out: Vec<TomlValue> = Vec::new();
    let mut i: usize = 0;
    while i < v.len()
        invariant
            i <= v.len(),
            out.len() == i,
            forall|j: int| 0 <= j < i ==> tree(#[trigger] out[j]) == Toml::Text(v[j]@),
        decreases v.len() - i,
    {
        out.push(TomlValue::Text(v[i].clone()));
        i = i + 1;
    }
    proof {
        lemma_trees(out, out.len() as nat);
        assert(trees(out, out.len() as nat) =~= Seq::new(
            views(v@).len(),
            |i: int| Toml::Text(views(v@)[i]),
        ));
    }
    TomlValue::Array(out)
}

fn strain_table(s: &StrainConfig) -> (t: Option<Vec<TomlEntry>>)
    ensures
        match t {
            Some(v) => retain_fits(s.retain) && table(v) == encode_strain(s@),
            None => !retain_fits(s.retain),
        },
{
    let retain = retain_table(&s.retain)?;
    let mut t: Vec<TomlEntry> = Vec::new();
    match &s.display_name {
        Some(n) => {
            t.push(entry("display_name", text_value(n)));
        },
        None => {},
    }
    t.push(entry("subvolumes", texts_value(&s.subvolumes)));
    t.push(entry("efi", TomlValue::Boolean(s.efi)));
    t.push(entry("retain", TomlValue::Table(retain)));
    proof {
        lemma_entries(t, t.len() as nat);
        assert(table(t) =~= encode_strain(s@));
    }
    Some(t)
}

fn sys_table(s: &SysConfig) -> (t: Vec<TomlEntry>)
    ensures
        table(t) == encode_sys(s@),
{
    let mut rootfs: Vec<TomlEntry> = Vec::new();
    rootfs.push(entry("backend", text_value(&s.rootfs.backend)));
    rootfs.push(entry("device_uuid", text_value(&s.rootfs.device_uuid)));
    let mut efi: Vec<TomlEntry> = Vec::new();
    efi.push(entry("enabled", TomlValue::Boolean(s.efi.enabled)));
    efi.push(entry("mount_point", text_value(&s.efi.mount_point)));
    efi.push(entry("staging_subvol", text_value(&s.efi.staging_subvol)));
    let mut boot: Vec<TomlEntry> = Vec::new();
    boot.push(entry("backend", text_value(&s.bootloader.backend)));
    proof {
        lemma_entries(rootfs, rootfs.len() as nat);
        lemma_entries(efi, efi.len() as nat);
        lemma_entries(boot, boot.len() as nat);
        assert(table(rootfs) =~= seq![
            ("backend"@, Toml::Text(s@.backend)),
            ("device_uuid"@, Toml::Text(s@.device_uuid)),
        ]);
        assert(table(efi) =~= seq![
            ("enabled"@, Toml::Boolean(s@.efi_enabled)),
            ("mount_point"@, Toml::Text(s@.efi_mount)),
            ("staging_subvol"@, Toml::Text(s@.staging_subvol)),
        ]);
        assert(table(boot) =~= seq![("backend"@, Toml::Text(s@.bootloader))]);
    }
    let mut t: Vec<TomlEntry> = Vec::new();
    t.push(entry("rootfs_subvol", text_value(&s.rootfs_subvol)));
    t.push(entry("snapshot_subvol", text_value(&s.snapshot_subvol)));
    t.push(entry("auto_apply_retention", TomlValue::Boolean(s.auto_apply_retention)));
    t.push(
        entry(
            "tombstone_max_age_days",
            TomlValue::Integer(s.tombstone_max_age_days as i64),
        ),
    );
    t.push(entry("rootfs", TomlValue::Table(rootfs)));
    t.push(entry("efi", TomlValue::Table(efi)));
    t.push(entry("bootloader", TomlValue::Table(boot)));
    proof {
        lemma_entries(t, t.len() as nat);
        assert(table(t) =~= encode_sys(s@));
    }
    t
}

fn config_table(config: &Config) -> (t: Option<Vec<TomlEntry>>)
    ensures
        match t {
            Some(v) => tiers_fit(config@) && table(v) == encode_config(config@),
            None => !tiers_fit(config@),
        },
        distinct_keys(config@.strain),
{
    let list = config.strain.entries();
    let ghost all = config@.strain;
    let mut strains: Vec<TomlEntry> = Vec::new();
    let mut i: usize = 0;
    while i < list.len()
        invariant
            i <= list.len(),
            all == config@.strain,
            strain_views(list@) == all,
            strains.len() == i,
            forall|j: int| 0 <= j < i ==> retain_fits((#[trigger] all[j]).1.retain),
            forall|j: int|
                0 <= j < i ==> (#[trigger] strains[j]).key@ == all[j].0 && tree(strains[j].value)
                    == Toml::Table(encode_strain(all[j].1)),
            distinct_keys(config@.strain),
        decreases list.len() - i,
    {
        assert(all[i as int] == list@[i as int]@);
        let t = strain_table(&list[i].config)?;
        strains.push(entry(list[i].name.as_str(), TomlValue::Table(t)));
        i = i + 1;
    }
    let mut t: Vec<TomlEntry> = Vec::new();
    proof {
        lemma_entries(strains, strains.len() as nat);
        assert(table(strains) =~= encode_strains(all));
    }
    t.push(entry("sys", TomlValue::Table(sys_table(&config.sys))));
    t.push(entry("strain", TomlValue::Table(strains)));
    proof {
        lemma_entries(t, t.len() as nat);
        assert(table(t) =~= encode_config(config@));
    }
    Some(t)
}

proof fn lemma_tier_tokens()
    ensures
        is_token("last"@),
        is_token("hourly"@),
        is_token("daily"@),
        is_token("weekly"@),
        is_token("monthly"@),
        is_token("yearly"@),
{
    reveal_strlit("last");
    reveal_strlit("hourly");
    reveal_strlit("daily");
    reveal_strlit("weekly");
    reveal_strlit("monthly");
    reveal_strlit("yearly");
}

proof fn lemma_strain_tokens()
    ensures
        is_token("display_name"@),
        is_token("subvolumes"@),
        is_token("efi"@),
        is_token("retain"@),
        is_token("sys"@),
        is_token("strain"@),
{
    reveal_strlit("display_name");
    reveal_strlit("subvolumes");
    reveal_strlit("efi");
    reveal_strlit("retain");
    reveal_strlit("sys");
    reveal_strlit("strain");
}

proof fn lemma_sys_tokens()
    ensures
        is_token("rootfs_subvol"@),
        is_token("snapshot_subvol"@),
        is_token("auto_apply_retention"@),
        is_token("tombstone_max_age_days"@),
        is_token("rootfs"@),
        is_token("efi"@),
        is_token("bootloader"@),
{
    reveal_strlit("rootfs_subvol");
    reveal_strlit("snapshot_subvol");
    reveal_strlit("auto_apply_retention");
    reveal_strlit("tombstone_max_age_days");
    reveal_strlit("rootfs");
    reveal_strlit("efi");
    reveal_strlit("bootloader");
}

proof fn lemma_part_tokens()
    ensures
        is_token("backend"@),
        is_token("device_uuid"@),
        is_token("enabled"@),
        is_token("mount_point"@),
        is_token("staging_subvol"@),
{
    reveal_strlit("backend");
    reveal_strlit("device_uuid");
    reveal_strlit("enabled");
    reveal_strlit("mount_point");
    reveal_strlit("staging_subvol");
}

proof fn lemma_header_is_comment()
    ensures
        is_comment_block(CONFIG_HEADER@),
{
    reveal_strlit(
        "# Revenant configuration\n# Generated by: revenantctl init\n# Review and adjust as needed.\n\n",
    );
}

proof fn lemma_retain_regular(r: RetainConfig)
    ensures
        is_regular(encode_retain(r), 0),
{
    lemma_key_lengths();
    lemma_tier_tokens();
}

proof fn lemma_strain_regular(s: StrainView)
    requires
        s.subvolumes.len() > 0,
    ensures
        is_regular(encode_strain(s), 1),
{
    lemma_key_lengths();
    lemma_strain_tokens();
    lemma_retain_regular(s.retain);
    let a = Seq::new(s.subvolumes.len(), |i: int| Toml::Text(s.subvolumes[i]));
    assert(is_plain(Toml::Array(a))) by {
        assert forall|i: int| 0 <= i < a.len() implies (#[trigger] a[i]) is Text by {
            assert(a[i] == Toml::Text(s.subvolumes[i]));
        }
    }
}

proof fn lemma_sys_regular(s: SysView)
    ensures
        is_regular(encode_sys(s), 2),
{
    lemma_key_lengths();
    lemma_sys_tokens();
    lemma_part_tokens();
    let t = encode_sys(s);
    assert(is_regular(t[4].1->Table_0, 1));
    assert(is_regular(t[5].1->Table_0, 1));
    assert(is_regular(t[6].1->Table_0, 1));
}

proof fn lemma_strain_sound(sys: SysView, s: Seq<(Seq<char>, StrainView)>, i: int)
    requires
        strains_fault(sys, s) is None,
        0 <= i < s.len(),
    ensures
        is_token(s[i].0),
        s[i].1.subvolumes.len() > 0,
    decreases s.len(),
{
    if i > 0 {
        lemma_strain_sound(sys, s.skip(1), i - 1);
    }
}

proof fn lemma_config_regular(c: ConfigView)
    requires
        distinct_keys(c.strain),
        config_fault(c) is None,
    ensures
        is_regular(encode_config(c), usual_depth()),
{
    lemma_key_lengths();
    lemma_strain_tokens();
    lemma_sys_regular(c.sys);
    let t = encode_strains(c.strain);
    assert forall|i: int| 0 <= i < t.len() implies is_token((#[trigger] t[i]).0) && is_regular(
        t[i].1->Table_0,
        1,
    ) by {
        lemma_strain_sound(c.sys, c.strain, i);
        lemma_strain_regular(c.strain[i].1);
    }
    assert(is_regular(t, 2));
}

fn config_texts_fit(config: &Config) -> (r: bool)
    ensures
        r == texts_fit(config@),
{
    let sys = &config.sys;
    if !(text_quotes_fit(sys.rootfs_subvol.as_str()) && text_quotes_fit(
        sys.snapshot_subvol.as_str(),
    ) && text_quotes_fit(sys.rootfs.backend.as_str()) && text_quotes_fit(
        sys.rootfs.device_uuid.as_str(),
    ) && text_quotes_fit(sys.efi.mount_point.as_str()) && text_quotes_fit(
        sys.efi.staging_subvol.as_str(),
    ) && text_quotes_fit(sys.bootloader.backend.as_str())) {
        return false;
    }
    let list = config.strain.entries();
    let mut i: usize = 0;
    while i < list.len()
        invariant
            i <= list.len(),
            strain_views(list@) == config@.strain,
            sys_texts_fit(config@.sys),
            forall|j: int| 0 <= j < i ==> strain_texts_fit((#[trigger] config@.strain[j]).1),
        decreases list.len() - i,
    {
        assert(config@.strain[i as int] == list@[i as int]@);
        let s = &list[i].config;
        let named: bool = match &s.display_name {
            Some(n) => text_quotes_fit(n.as_str()),
            None => true,
        };
        if !named || !texts_quotes_fit(&s.subvolumes) {
            return false;
        }
        i = i + 1;
    }
    true
}

proof fn lemma_strain_renderable(s: StrainView)
    requires
        strain_texts_fit(s),
    ensures
        renderable(Toml::Table(encode_strain(s))),
{
    let a = Seq::new(s.subvolumes.len(), |i: int| Toml::Text(s.subvolumes[i]));
    assert forall|i: int| 0 <= i < a.len() implies renderable(#[trigger] a[i]) by {
        assert(quotes_fit(s.subvolumes[i]));
    }
    assert(renderable(Toml::Array(a)));
    let u = encode_retain(s.retain);
    assert forall|i: int| 0 <= i < u.len() implies renderable((#[trigger] u[i]).1) by {}
    assert(renderable(Toml::Table(u)));
    let t = encode_strain(s);
    assert forall|i: int| 0 <= i < t.len() implies renderable((#[trigger] t[i]).1) by {}
}

proof fn lemma_config_renderable(c: ConfigView)
    requires
        texts_fit(c),
    ensures
        renderable(Toml::Table(encode_config(c))),
{
    let t = encode_sys(c.sys);
    assert(renderable(t[4].1)) by {
        let u = t[4].1->Table_0;
        assert forall|i: int| 0 <= i < u.len() implies renderable((#[trigger] u[i]).1) by {}
    }
    assert(renderable(t[5].1)) by {
        let u = t[5].1->Table_0;
        assert forall|i: int| 0 <= i < u.len() implies renderable((#[trigger] u[i]).1) by {}
    }
    assert(renderable(t[6].1)) by {
        let u = t[6].1->Table_0;
        assert forall|i: int| 0 <= i < u.len() implies renderable((#[trigger] u[i]).1) by {}
    }
    assert forall|i: int| 0 <= i < t.len() implies renderable((#[trigger] t[i]).1) by {}
    assert(renderable(Toml::Table(t)));
    let s = encode_strains(c.strain);
    assert forall|i: int| 0 <= i < s.len() implies renderable((#[trigger] s[i]).1) by {
        assert(strain_texts_fit(c.strain[i].1));
        lemma_strain_renderable(c.strain[i].1);
    }
    assert(renderable(Toml::Table(s)));
    let d = encode_config(c);
    assert forall|i: int| 0 <= i < d.len() implies renderable((#[trigger] d[i]).1) by {}
}

/// Serialize a configuration to a TOML text with a header comment.
///
/// Reading the text gives a valid configuration back. A text with too long a
/// run of one quote is refused, and so is a number that is too large.
pub fn config_to_toml(config: &Config) -> (r: Result<String>)
    ensures
        match r {
            Ok(s) => config_fits(config@) && toml_text(encode_config(config@)) is Ok && s@
                == CONFIG_HEADER@ + toml_text(encode_config(config@))->Ok_0,
            Err(e) => e@ is Other && (!config_fits(config@) || toml_text(
                encode_config(config@),
            ) is Err),
        },
        writable(config@) ==> r is Ok && reads_as(r->Ok_0@, config@),
{
    if !config_texts_fit(config) {
        return Err(RevenantError::Other("too many quotes in a row".to_owned()));
    }
    let doc = config_table(config);
    proof {
        lemma_config_renderable(config@);
        if writable(config@) {
            lemma_config_regular(config@);
            law_config_survives_encoding(config@);
        }
        lemma_header_is_comment();
    }
    match doc {
        Some(t) => match render_toml(&t) {
            Ok(s) => Ok(cat2(CONFIG_HEADER, s.as_str())),
            Err(m) => Err(RevenantError::Other(m)),
        },
        None => Err(RevenantError::Other("retention tier out of range".to_owned())),
    }
}

proof fn lemma_key_lengths()
    ensures
        "last"@.len() == 4,
        "hourly"@.len() == 6,
        "daily"@.len() == 5,
        "weekly"@.len() == 6,
        "monthly"@.len() == 7,
        "yearly"@.len() == 6,
        "display_name"@.len() == 12,
        "subvolumes"@.len() == 10,
        "efi"@.len() == 3,
        "retain"@.len() == 6,
        "sys"@.len() == 3,
        "strain"@.len() == 6,
        "rootfs_subvol"@.len() == 13,
        "snapshot_subvol"@.len() == 15,
        "auto_apply_retention"@.len() == 20,
        "tombstone_max_age_days"@.len() == 22,
        "rootfs"@.len() == 6,
        "bootloader"@.len() == 10,
        "backend"@.len() == 7,
        "device_uuid"@.len() == 11,
        "enabled"@.len() == 7,
        "mount_point"@.len() == 11,
        "staging_subvol"@.len() == 14,
        "hourly"@[0] == 'h',
        "weekly"@[0] == 'w',
        "yearly"@[0] == 'y',
        "retain"@[0] == 'r',
{
    reveal_strlit("last");
    reveal_strlit("hourly");
    reveal_strlit("daily");
    reveal_strlit("weekly");
    reveal_strlit("monthly");
    reveal_strlit("yearly");
    reveal_strlit("display_name");
    reveal_strlit("subvolumes");
    reveal_strlit("efi");
    reveal_strlit("retain");
    reveal_strlit("sys");
    reveal_strlit("strain");
    reveal_strlit("rootfs_subvol");
    reveal_strlit("snapshot_subvol");
    reveal_strlit("auto_apply_retention");
    reveal_strlit("tombstone_max_age_days");
    reveal_strlit("rootfs");
    reveal_strlit("bootloader");
    reveal_strlit("backend");
    reveal_strlit("device_uuid");
    reveal_strlit("enabled");
    reveal_strlit("mount_point");
    reveal_strlit("staging_subvol");
}

proof fn lemma_retain_round_trip(r: RetainConfig, s: StrainView)
    requires
        s.retain == r,
    ensures
        decode_retain(encode_strain(s)) == Some(r),
{
    lemma_key_lengths();
    let u = encode_retain(r);
    lemma_lookup_at(u, "last"@, 0);
    lemma_lookup_at(u, "hourly"@, 1);
    lemma_lookup_at(u, "daily"@, 2);
    lemma_lookup_at(u, "weekly"@, 3);
    lemma_lookup_at(u, "monthly"@, 4);
    lemma_lookup_at(u, "yearly"@, 5);
    let t = encode_strain(s);
    lemma_lookup_at(t, "retain"@, t.len() - 1);
}

proof fn lemma_strain_round_trip(s: StrainView)
    ensures
        decode_strain(Toml::Table(encode_strain(s))) == Some(s),
{
    lemma_key_lengths();
    let t = encode_strain(s);
    lemma_retain_round_trip(s.retain, s);
    if s.display_name is Some {
        lemma_lookup_at(t, "display_name"@, 0);
    } else {
        lemma_lookup_none(t, "display_name"@);
    }
    lemma_lookup_at(t, "subvolumes"@, t.len() - 3);
    lemma_lookup_at(t, "efi"@, t.len() - 2);
    let a = Seq::new(s.subvolumes.len(), |i: int| Toml::Text(s.subvolumes[i]));
    assert(texts_of(a) =~= s.subvolumes);
}

proof fn lemma_sys_round_trip(c: ConfigView)
    ensures
        decode_sys(encode_config(c)) == Some(c.sys),
{
    let s = c.sys;
    lemma_key_lengths();
    let doc = encode_config(c);
    lemma_lookup_at(doc, "sys"@, 0);
    let t = encode_sys(s);
    lemma_lookup_at(t, "rootfs_subvol"@, 0);
    lemma_lookup_at(t, "snapshot_subvol"@, 1);
    lemma_lookup_at(t, "auto_apply_retention"@, 2);
    lemma_lookup_at(t, "tombstone_max_age_days"@, 3);
    lemma_lookup_at(t, "rootfs"@, 4);
    lemma_lookup_at(t, "efi"@, 5);
    lemma_lookup_at(t, "bootloader"@, 6);
    let rootfs = t[4].1->Table_0;
    lemma_lookup_at(rootfs, "backend"@, 0);
    lemma_lookup_at(rootfs, "device_uuid"@, 1);
    let efi = t[5].1->Table_0;
    lemma_lookup_at(efi, "enabled"@, 0);
    lemma_lookup_at(efi, "mount_point"@, 1);
    lemma_lookup_at(efi, "staging_subvol"@, 2);
    let boot = t[6].1->Table_0;
    lemma_lookup_at(boot, "backend"@, 0);
}

proof fn lemma_strains_round_trip(s: Seq<(Seq<char>, StrainView)>, n: nat)
    requires
        crate::assoc::distinct_keys(s),
        n <= s.len(),
    ensures
        decode_strains(encode_strains(s), n) == Some(s.take(n as int)),
    decreases n,
{
    let t = encode_strains(s);
    if n == 0 {
        assert(s.take(0) =~= Seq::empty());
    } else {
        lemma_strains_round_trip(s, (n - 1) as nat);
        lemma_strain_round_trip(s[n - 1].1);
        let first = s.take(n - 1);
        assert forall|j: int| 0 <= j < first.len() implies (#[trigger] first[j]).0
            != s[n - 1].0 by {
            assert(first[j] == s[j]);
        }
        crate::config::lemma_with_strain_new(first, s[n - 1].0, s[n - 1].1);
        assert(s.take(n as int) =~= first.push(s[n - 1]));
    }
}

/// A configuration survives being written: decoding the document that is
/// written for it gives it back.
pub proof fn law_config_survives_encoding(c: ConfigView)
    requires
        distinct_keys(c.strain),
    ensures
        decode_config(encode_config(c)) == Some(c),
{
    lemma_key_lengths();
    lemma_sys_round_trip(c);
    lemma_lookup_at(encode_config(c), "strain"@, 1);
    lemma_strains_round_trip(c.strain, c.strain.len());
    assert(c.strain.take(c.strain.len() as int) =~= c.strain);
}

/// A detected configuration is valid: what is built from a btrfs rootfs
/// subvolume with a name passes validation, under any bootloader or none, and
/// it can be written so that reading gives it back.
pub proof fn law_built_config_is_valid(d: DetectedConfig)
    requires
        d.backend@ == "btrfs"@,
        d.rootfs_subvol@.len() > 0,
        quotes_fit(d.rootfs_subvol@),
        quotes_fit(d.device_uuid@),
        d.efi matches Some(e) ==> quotes_fit(e.mount_point@),
        d.bootloader matches Some(b) ==> quotes_fit(b@),
    ensures
        config_fault(built_config(d)) is None,
        writable(built_config(d)),
        built_config(d).sys.bootloader == match d.bootloader {
            Some(b) => b@,
            None => "unknown"@,
        },
{
    let c = built_config(d);
    reveal_strlit("btrfs");
    reveal_strlit("/boot");
    reveal_strlit("@boot");
    reveal_strlit("unknown");
    reveal_strlit("@snapshots");
    reveal_strlit("default");
    reveal_strlit("DELETE");
    assert(c.strain.skip(1) =~= Seq::empty());
    assert(valid_strain_name("default"@)) by {
        assert("default"@.len() == 7);
        assert("DELETE"@.len() == 6);
    }
    assert(strains_fault(c.sys, c.strain.skip(1)) is None);
}

} // verus!
