//! Configuration: system settings and snapshot strains.

use vstd::prelude::*;
use vstd::string::*;

use crate::assoc::{distinct_keys, lemma_lookup_at, lemma_lookup_none, lookup};
use crate::backend::FileSystemBackend;
use crate::document::{
    field_trees, fields_of, get, lemma_entries, lemma_trees, name_views, parse_toml, record_fields,
    table, table_fields, toml_document, tree, trees, Field, Toml, TomlEntry, TomlValue,
};
use crate::error::{ErrorView, Result, RevenantError};
use crate::path::{path_of, path_text, FsPath};
use crate::snapshot::id::{is_token, is_token_text};
use crate::text::{cat2, cat3, clone_texts, lemma_views_push, opt_view, same_text, views};

verus! {

/// Default configuration file path.
pub const DEFAULT_CONFIG_PATH: &'static str = "/etc/revenant/config.toml";

/// Reserved pseudo-strain name used to mark subvolumes pending deletion.
/// It is no name of a strain.
pub const DELETE_STRAIN: &'static str = "DELETE";

/// Tiered retention policy of a strain; a tier of 0 is disabled.
#[derive(Debug, Clone, Copy, PartialEq, Eq, Structural)]
pub struct RetainConfig {
    /// Keep N most recent snapshots regardless of age.
    pub last: usize,
    /// Keep the newest snapshot per clock-hour for N hours.
    pub hourly: usize,
    /// Keep the newest snapshot per calendar-day for N days.
    pub daily: usize,
    /// Keep the newest snapshot per ISO-week for N weeks.
    pub weekly: usize,
    /// Keep the newest snapshot per calendar-month for N months.
    pub monthly: usize,
    /// Keep the newest snapshot per calendar-year for N years.
    pub yearly: usize,
}

/// The policy of a strain that gives none: the ten most recent snapshots.
pub open spec fn default_retain() -> RetainConfig {
    RetainConfig { last: 10, hourly: 0, daily: 0, weekly: 0, monthly: 0, yearly: 0 }
}

impl Default for RetainConfig {
    fn default() -> (r: RetainConfig)
        ensures
            r == default_retain(),
    {
        RetainConfig { last: 10, hourly: 0, daily: 0, weekly: 0, monthly: 0, yearly: 0 }
    }
}

impl RetainConfig {
    /// Whether every tier is disabled.
    pub open spec fn disabled(self) -> bool {
        self.last == 0 && self.hourly == 0 && self.daily == 0 && self.weekly == 0 && self.monthly
            == 0 && self.yearly == 0
    }
}

/// Configuration of a snapshot strain.
#[derive(Debug)]
pub struct StrainConfig {
    /// Name shown in place of the strain's own.
    pub display_name: Option<String>,
    /// Retention policy of the strain.
    pub retain: RetainConfig,
    /// Subvolumes to snapshot.
    pub subvolumes: Vec<String>,
    /// Whether to sync EFI as part of this strain's snapshots.
    pub efi: bool,
}

/// A strain's configuration with its texts.
pub struct StrainView {
    pub display_name: Option<Seq<char>>,
    pub retain: RetainConfig,
    pub subvolumes: Seq<Seq<char>>,
    pub efi: bool,
}

impl View for StrainConfig {
    type V = StrainView;

    open spec fn view(&self) -> StrainView {
        StrainView {
            display_name: opt_view(self.display_name),
            retain: self.retain,
            subvolumes: views(self.subvolumes@),
            efi: self.efi,
        }
    }
}

impl Clone for StrainConfig {
    fn clone(&self) -> (r: Self)
        ensures
            r@ == self@,
    {
        let display_name: Option<String> = match &self.display_name {
            Some(s) => Some(s.clone()),
            None => None,
        };
        StrainConfig {
            display_name,
            retain: self.retain,
            subvolumes: clone_texts(&self.subvolumes),
            efi: self.efi,
        }
    }
}

/// A strain's name and configuration.
#[derive(Debug)]
pub struct StrainEntry {
    pub name: String,
    pub config: StrainConfig,
}

impl View for StrainEntry {
    type V = (Seq<char>, StrainView);

    open spec fn view(&self) -> (Seq<char>, StrainView) {
        (self.name@, self.config@)
    }
}

/// The configured strains by name, in the order in which they were given. No
/// name occurs twice.
#[derive(Debug)]
pub struct StrainMap {
    list: Vec<StrainEntry>,
}

/// The names and configurations of some strains.
pub open spec fn strain_views(v: Seq<StrainEntry>) -> Seq<(Seq<char>, StrainView)> {
    Seq::new(v.len(), |i: int| v[i]@)
}

impl View for StrainMap {
    type V = Seq<(Seq<char>, StrainView)>;

    closed spec fn view(&self) -> Seq<(Seq<char>, StrainView)> {
        strain_views(self.list@)
    }
}

/// The strains after `name` was given the configuration `c`.
pub open spec fn with_strain(
    s: Seq<(Seq<char>, StrainView)>,
    name: Seq<char>,
    c: StrainView,
) -> Seq<(Seq<char>, StrainView)>
    decreases s.len(),
{
    if s.len() == 0 {
        seq![(name, c)]
    } else if s[0].0 == name {
        s.update(0, (name, c))
    } else {
        seq![s[0]] + with_strain(s.skip(1), name, c)
    }
}

proof fn lemma_with_strain_at(
    s: Seq<(Seq<char>, StrainView)>,
    name: Seq<char>,
    c: StrainView,
    i: int,
)
    requires
        0 <= i < s.len(),
        s[i].0 == name,
        forall|j: int| 0 <= j < i ==> (#[trigger] s[j]).0 != name,
    ensures
        with_strain(s, name, c) == s.update(i, (name, c)),
    decreases i,
{
    if i > 0 {
        let t = s.skip(1);
        assert(t[i - 1] == s[i]);
        assert forall|j: int| 0 <= j < i - 1 implies (#[trigger] t[j]).0 != name by {
            assert(t[j] == s[j + 1]);
        }
        lemma_with_strain_at(t, name, c, i - 1);
        assert(seq![s[0]] + t.update(i - 1, (name, c)) =~= s.update(i, (name, c)));
    }
}

/// Giving a new strain a configuration appends it.
pub proof fn lemma_with_strain_new(s: Seq<(Seq<char>, StrainView)>, name: Seq<char>, c: StrainView)
    requires
        forall|j: int| 0 <= j < s.len() ==> (#[trigger] s[j]).0 != name,
    ensures
        with_strain(s, name, c) == s.push((name, c)),
    decreases s.len(),
{
    if s.len() == 0 {
        assert(s.push((name, c)) =~= seq![(name, c)]);
    } else {
        let t = s.skip(1);
        assert forall|j: int| 0 <= j < t.len() implies (#[trigger] t[j]).0 != name by {
            assert(t[j] == s[j + 1]);
        }
        lemma_with_strain_new(t, name, c);
        assert(seq![s[0]] + t.push((name, c)) =~= s.push((name, c)));
    }
}

impl StrainMap {
    #[verifier::type_invariant]
    spec fn inv(&self) -> bool {
        distinct_keys(strain_views(self.list@))
    }

    /// No strains.
    pub fn new() -> (r: StrainMap)
        ensures
            r@.len() == 0,
    {
        StrainMap { list: Vec::new() }
    }

    /// Number of strains.
    pub fn len(&self) -> (r: usize)
        ensures
            r == self@.len(),
    {
        self.list.len()
    }

    /// Whether there are no strains.
    pub fn is_empty(&self) -> (r: bool)
        ensures
            r == (self@.len() == 0),
    {
        self.list.len() == 0
    }

    /// The strains in the order in which they were given.
    pub fn entries(&self) -> (r: &Vec<StrainEntry>)
        ensures
            strain_views(r@) == self@,
            r@.len() == self@.len(),
            distinct_keys(self@),
    {
        proof {
            use_type_invariant(self);
        }
        &self.list
    }

    fn position(&self, name: &str) -> (r: Option<usize>)
        ensures
            match r {
                Some(i) => i < self@.len() && self@[i as int].0 == name@ && forall|j: int|
                    0 <= j < i ==> (#[trigger] self@[j]).0 != name@,
                None => forall|j: int| 0 <= j < self@.len() ==> (#[trigger] self@[j]).0 != name@,
            },
            self.list@.len() == self@.len(),
    {
        let mut i: usize = 0;
        while i < self.list.len()
            invariant
                i <= self.list.len(),
                self@ == strain_views(self.list@),
                forall|j: int| 0 <= j < i ==> (#[trigger] self@[j]).0 != name@,
            decreases self.list.len() - i,
        {
            assert(self@[i as int].0 == self.list@[i as int].name@);
            if same_text(self.list[i].name.as_str(), name) {
                return Some(i);
            }
            i = i + 1;
        }
        None
    }

    /// The configuration of the strain `name`.
    pub fn get(&self, name: &str) -> (r: Option<&StrainConfig>)
        ensures
            match r {
                Some(c) => lookup(self@, name@) == Some(c@),
                None => lookup(self@, name@) is None,
            },
    {
        match self.position(name) {
            Some(i) => {
                proof {
                    lemma_lookup_at(self@, name@, i as int);
                }
                Some(&self.list[i].config)
            },
            None => {
                proof {
                    lemma_lookup_none(self@, name@);
                }
                None
            },
        }
    }

    /// Whether there is a strain `name`.
    pub fn contains_key(&self, name: &str) -> (r: bool)
        ensures
            r == (lookup(self@, name@) is Some),
    {
        self.get(name).is_some()
    }

    /// Gives the strain `name` the configuration `config`, in place of the
    /// one it had, if any.
    pub fn insert(&mut self, name: String, config: StrainConfig)
        ensures
            final(self)@ == with_strain(old(self)@, name@, config@),
    {
        proof {
            use_type_invariant(&*self);
        }
        let ghost before = self@;
        let mut list = clone_entries(&self.list);
        let entry = StrainEntry { name, config };
        match self.position(entry.name.as_str()) {
            Some(i) => {
                proof {
                    lemma_with_strain_at(before, entry.name@, entry.config@, i as int);
                    assert(strain_views(list@.update(i as int, entry)) =~= before.update(
                        i as int,
                        entry@,
                    ));
                }
                list.set(i, entry);
            },
            None => {
                proof {
                    lemma_with_strain_new(before, entry.name@, entry.config@);
                    assert(strain_views(list@.push(entry)) =~= before.push(entry@));
                }
                list.push(entry);
            },
        }
        *self = StrainMap { list };
    }
}

fn clone_entries(v: &Vec<StrainEntry>) -> (list: Vec<StrainEntry>)
    ensures
        strain_views(list@) == strain_views(v@),
        list@.len() == v@.len(),
{
    let mut list: Vec<StrainEntry> = Vec::new();
    let mut i: usize = 0;
    while i < v.len()
        invariant
            i <= v.len(),
            list@.len() == i,
            strain_views(list@) == strain_views(v@).take(i as int),
        decreases v.len() - i,
    {
        let entry = StrainEntry { name: v[i].name.clone(), config: v[i].config.clone() };
        let ghost before = list@;
        list.push(entry);
        proof {
            assert(strain_views(list@) =~= strain_views(before).push(entry@));
            assert(strain_views(v@).take(i + 1) =~= strain_views(v@).take(i as int).push(
                v@[i as int]@,
            ));
        }
        i = i + 1;
    }
    proof {
        assert(strain_views(v@).take(v@.len() as int) =~= strain_views(v@));
    }
    list
}

impl Clone for StrainMap {
    fn clone(&self) -> (r: Self)
        ensures
            r@ == self@,
    {
        proof {
            use_type_invariant(self);
        }
        StrainMap { list: clone_entries(&self.list) }
    }
}

/// Settings of the root filesystem.
#[derive(Debug)]
pub struct RootfsConfig {
    /// Backend type; only `btrfs` is supported.
    pub backend: String,
    /// UUID of the btrfs device.
    pub device_uuid: String,
}

/// Settings of the EFI system partition.
#[derive(Debug)]
pub struct EfiConfig {
    /// Whether EFI backup is enabled.
    pub enabled: bool,
    /// Mount point of the EFI/boot partition.
    pub mount_point: String,
    /// Staging subvolume for EFI content.
    pub staging_subvol: String,
}

/// Settings of the bootloader.
#[derive(Debug)]
pub struct BootloaderConfig {
    /// Bootloader in use; informational.
    pub backend: String,
}

/// System-level settings.
#[derive(Debug)]
pub struct SysConfig {
    /// Subvolume holding the OS rootfs.
    pub rootfs_subvol: String,
    /// Subvolume where snapshots are stored.
    pub snapshot_subvol: String,
    /// Whether retention is applied after each new snapshot.
    pub auto_apply_retention: bool,
    /// Days after which a DELETE marker expires; 0 disables expiry.
    pub tombstone_max_age_days: u32,
    pub rootfs: RootfsConfig,
    pub efi: EfiConfig,
    pub bootloader: BootloaderConfig,
}

/// Top-level configuration.
#[derive(Debug)]
pub struct Config {
    pub sys: SysConfig,
    pub strain: StrainMap,
}

/// System-level settings with their texts.
pub struct SysView {
    pub rootfs_subvol: Seq<char>,
    pub snapshot_subvol: Seq<char>,
    pub auto_apply_retention: bool,
    pub tombstone_max_age_days: u32,
    pub backend: Seq<char>,
    pub device_uuid: Seq<char>,
    pub efi_enabled: bool,
    pub efi_mount: Seq<char>,
    pub staging_subvol: Seq<char>,
    pub bootloader: Seq<char>,
}

/// A configuration with its texts.
pub struct ConfigView {
    pub sys: SysView,
    pub strain: Seq<(Seq<char>, StrainView)>,
}

impl View for SysConfig {
    type V = SysView;

    open spec fn view(&self) -> SysView {
        SysView {
            rootfs_subvol: self.rootfs_subvol@,
            snapshot_subvol: self.snapshot_subvol@,
            auto_apply_retention: self.auto_apply_retention,
            tombstone_max_age_days: self.tombstone_max_age_days,
            backend: self.rootfs.backend@,
            device_uuid: self.rootfs.device_uuid@,
            efi_enabled: self.efi.enabled,
            efi_mount: self.efi.mount_point@,
            staging_subvol: self.efi.staging_subvol@,
            bootloader: self.bootloader.backend@,
        }
    }
}

impl View for Config {
    type V = ConfigView;

    open spec fn view(&self) -> ConfigView {
        ConfigView { sys: self.sys@, strain: self.strain@ }
    }
}

/// Whether `name` may name a strain: letters, digits and `_` only, since
/// dashes delimit the parts of snapshot names, and not the reserved name.
pub open spec fn valid_strain_name(name: Seq<char>) -> bool {
    is_token(name) && name != DELETE_STRAIN@
}

/// Whether `name` may name a strain.
pub fn is_valid_strain_name(name: &str) -> (r: bool)
    ensures
        r == valid_strain_name(name@),
{
    is_token_text(name) && !same_text(name, DELETE_STRAIN)
}

/// Whether `name` is made like a strain name; the reserved name is, too.
pub fn is_strain_token_lexical(name: &str) -> (r: bool)
    ensures
        r == is_token(name@),
{
    is_token_text(name)
}

/// What is wrong with a strain's configuration, if anything.
pub open spec fn strain_fault(
    sys: SysView,
    name: Seq<char>,
    c: StrainView,
) -> Option<Seq<char>> {
    if !valid_strain_name(name) {
        Some("invalid strain name '"@ + name + "': only [a-zA-Z0-9_] allowed"@)
    } else if c.retain.disabled() {
        Some("strain '"@ + name + "': retain config must have at least one field > 0"@)
    } else if c.subvolumes.len() == 0 {
        Some("strain '"@ + name + "': subvolumes must not be empty"@)
    } else if c.efi && !sys.efi_enabled {
        Some("strain '"@ + name + "' has efi = true but sys.efi.enabled is false"@)
    } else {
        None
    }
}

/// What is wrong with the first faulty strain, if any is.
pub open spec fn strains_fault(
    sys: SysView,
    s: Seq<(Seq<char>, StrainView)>,
) -> Option<Seq<char>>
    decreases s.len(),
{
    if s.len() == 0 {
        None
    } else {
        match strain_fault(sys, s[0].0, s[0].1) {
            Some(m) => Some(m),
            None => strains_fault(sys, s.skip(1)),
        }
    }
}

/// What is wrong with a configuration, if anything.
pub open spec fn config_fault(c: ConfigView) -> Option<Seq<char>> {
    if c.sys.rootfs_subvol.len() == 0 {
        Some("sys.rootfs_subvol must not be empty"@)
    } else if c.sys.snapshot_subvol.len() == 0 {
        Some("sys.snapshot_subvol must not be empty"@)
    } else if c.sys.backend != "btrfs"@ {
        Some("unsupported rootfs backend: "@ + c.sys.backend)
    } else if c.strain.len() == 0 {
        Some("at least one strain must be defined"@)
    } else {
        strains_fault(c.sys, c.strain)
    }
}

fn check_strain(sys: &SysConfig, name: &str, c: &StrainConfig) -> (r: Result<()>)
    ensures
        match r {
            Ok(_) => strain_fault(sys@, name@, c@) is None,
            Err(e) => strain_fault(sys@, name@, c@) matches Some(m) && e@ == ErrorView::Config(m),
        },
{
    if !is_valid_strain_name(name) {
        return Err(
            RevenantError::Config(
                cat3("invalid strain name '", name, "': only [a-zA-Z0-9_] allowed"),
            ),
        );
    }
    let k = &c.retain;
    if k.last == 0 && k.hourly == 0 && k.daily == 0 && k.weekly == 0 && k.monthly == 0 && k.yearly
        == 0 {
        return Err(
            RevenantError::Config(
                cat3("strain '", name, "': retain config must have at least one field > 0"),
            ),
        );
    }
    if c.subvolumes.len() == 0 {
        return Err(
            RevenantError::Config(cat3("strain '", name, "': subvolumes must not be empty")),
        );
    }
    if c.efi && !sys.efi.enabled {
        return Err(
            RevenantError::Config(
                cat3("strain '", name, "' has efi = true but sys.efi.enabled is false"),
            ),
        );
    }
    Ok(())
}

impl Config {
    /// Look up a strain by name.
    pub fn strain(&self, name: &str) -> (r: Result<&StrainConfig>)
        ensures
            match r {
                Ok(c) => lookup(self@.strain, name@) == Some(c@),
                Err(e) => lookup(self@.strain, name@) is None && e@ == ErrorView::Config(
                    "unknown strain: "@ + name@,
                ),
            },
    {
        match self.strain.get(name) {
            Some(c) => Ok(c),
            None => Err(RevenantError::Config(cat2("unknown strain: ", name))),
        }
    }

    /// Validate the configuration.
    pub fn validate(&self) -> (r: Result<()>)
        ensures
            match r {
                Ok(_) => config_fault(self@) is None,
                Err(e) => config_fault(self@) matches Some(m) && e@ == ErrorView::Config(m),
            },
    {
        if self.sys.rootfs_subvol.as_str().is_empty() {
            return Err(
                RevenantError::Config("sys.rootfs_subvol must not be empty".to_owned()),
            );
        }
        if self.sys.snapshot_subvol.as_str().is_empty() {
            return Err(
                RevenantError::Config("sys.snapshot_subvol must not be empty".to_owned()),
            );
        }
        if !same_text(self.sys.rootfs.backend.as_str(), "btrfs") {
            return Err(
                RevenantError::Config(
                    cat2("unsupported rootfs backend: ", self.sys.rootfs.backend.as_str()),
                ),
            );
        }
        if self.strain.is_empty() {
            return Err(RevenantError::Config("at least one strain must be defined".to_owned()));
        }
        let list = self.strain.entries();
        let ghost all = self@.strain;
        let mut i: usize = 0;
        proof {
            assert(all.skip(0) =~= all);
        }
        while i < list.len()
            invariant
                i <= list.len(),
                strain_views(list@) == all,
                all == self@.strain,
                config_fault(self@) == strains_fault(self@.sys, all.skip(i as int)),
            decreases list.len() - i,
        {
            proof {
                assert(all.skip(i as int)[0] == list@[i as int]@);
                assert(all.skip(i as int).skip(1) =~= all.skip(i + 1));
            }
            match check_strain(&self.sys, list[i].name.as_str(), &list[i].config) {
                Ok(_) => {},
                Err(e) => {
                    return Err(e);
                },
            }
            i = i + 1;
        }
        Ok(())
    }
}

/// The text under `key`, or the default where there is none.
pub open spec fn text_at(
    t: Seq<(Seq<char>, Toml)>,
    key: Seq<char>,
    default: Option<Seq<char>>,
) -> Option<Seq<char>> {
    match lookup(t, key) {
        Some(Toml::Text(s)) => Some(s),
        Some(_) => None,
        None => default,
    }
}

/// The truth value under `key`, or the default where there is none.
pub open spec fn bool_at(t: Seq<(Seq<char>, Toml)>, key: Seq<char>, default: bool) -> Option<bool> {
    match lookup(t, key) {
        Some(Toml::Boolean(b)) => Some(b),
        Some(_) => None,
        None => Some(default),
    }
}

/// The number from 0 to `max` under `key`, or the default where there is none.
pub open spec fn count_at(
    t: Seq<(Seq<char>, Toml)>,
    key: Seq<char>,
    default: int,
    max: int,
) -> Option<int> {
    match lookup(t, key) {
        Some(Toml::Integer(i)) => if 0 <= i <= max {
            Some(i)
        } else {
            None
        },
        Some(_) => None,
        None => Some(default),
    }
}

/// The fields of the record under `key`.
pub open spec fn record_at(
    t: Seq<(Seq<char>, Toml)>,
    key: Seq<char>,
    names: Seq<Seq<char>>,
) -> Option<Seq<(Seq<char>, Toml)>> {
    match lookup(t, key) {
        Some(v) => fields_of(v, names),
        None => None,
    }
}

/// The fields of a retention policy, in the order in which an array gives them.
pub open spec fn retain_fields() -> Seq<Seq<char>> {
    seq!["last"@, "hourly"@, "daily"@, "weekly"@, "monthly"@, "yearly"@]
}

/// The fields of a strain that an array gives, in order.
pub open spec fn strain_fields() -> Seq<Seq<char>> {
    seq!["retain"@, "subvolumes"@, "efi"@]
}

/// The fields of the system settings that an array gives, in order.
pub open spec fn sys_fields() -> Seq<Seq<char>> {
    seq!["rootfs_subvol"@, "snapshot_subvol"@, "rootfs"@, "efi"@, "bootloader"@]
}

/// The fields of the rootfs settings, in the order in which an array gives
/// them.
pub open spec fn rootfs_fields() -> Seq<Seq<char>> {
    seq!["backend"@, "device_uuid"@]
}

/// The fields of the EFI settings, in the order in which an array gives them.
pub open spec fn efi_fields() -> Seq<Seq<char>> {
    seq!["enabled"@, "mount_point"@, "staging_subvol"@]
}

/// The fields of the bootloader settings.
pub open spec fn bootloader_fields() -> Seq<Seq<char>> {
    seq!["backend"@]
}

/// Whether every value of an array is a text.
pub open spec fn all_texts(a: Seq<Toml>) -> bool {
    forall|i: int| 0 <= i < a.len() ==> (#[trigger] a[i]) is Text
}

/// The texts of an array of texts.
pub open spec fn texts_of(a: Seq<Toml>) -> Seq<Seq<char>> {
    Seq::new(a.len(), |i: int| a[i]->Text_0)
}

/// The texts of the array under `key`.
pub open spec fn texts_at(t: Seq<(Seq<char>, Toml)>, key: Seq<char>) -> Option<Seq<Seq<char>>> {
    match lookup(t, key) {
        Some(Toml::Array(a)) => if all_texts(a) {
            Some(texts_of(a))
        } else {
            None
        },
        _ => None,
    }
}

/// The retention policy that a strain's table gives.
pub open spec fn decode_retain(t: Seq<(Seq<char>, Toml)>) -> Option<RetainConfig> {
    let given = record_at(t, "retain"@, retain_fields());
    match lookup(t, "retain"@) {
        None => Some(default_retain()),
        Some(_) => if given is Some {
            let u = given->0;
            let last = count_at(u, "last"@, 0, usize::MAX as int);
            let hourly = count_at(u, "hourly"@, 0, usize::MAX as int);
            let daily = count_at(u, "daily"@, 0, usize::MAX as int);
            let weekly = count_at(u, "weekly"@, 0, usize::MAX as int);
            let monthly = count_at(u, "monthly"@, 0, usize::MAX as int);
            let yearly = count_at(u, "yearly"@, 0, usize::MAX as int);
            if last is Some && hourly is Some && daily is Some && weekly is Some && monthly is Some
                && yearly is Some {
                Some(
                    RetainConfig {
                        last: last->0 as usize,
                        hourly: hourly->0 as usize,
                        daily: daily->0 as usize,
                        weekly: weekly->0 as usize,
                        monthly: monthly->0 as usize,
                        yearly: yearly->0 as usize,
                    },
                )
            } else {
                None
            }
        } else {
            None
        },
    }
}

/// The strain configuration that a value gives.
pub open spec fn decode_strain(v: Toml) -> Option<StrainView> {
    match fields_of(v, strain_fields()) {
        Some(t) => {
            let display_name = lookup(t, "display_name"@);
            let retain = decode_retain(t);
            let subvolumes = texts_at(t, "subvolumes"@);
            let efi = bool_at(t, "efi"@, false);
            if (display_name is None || display_name->0 is Text) && retain is Some && subvolumes
                is Some && efi is Some {
                Some(
                    StrainView {
                        display_name: match display_name {
                            Some(Toml::Text(s)) => Some(s),
                            _ => None,
                        },
                        retain: retain->0,
                        subvolumes: subvolumes->0,
                        efi: efi->0,
                    },
                )
            } else {
                None
            }
        },
        None => None,
    }
}

/// The strains that the first `n` entries of a table give, each added in turn.
pub open spec fn decode_strains(
    t: Seq<(Seq<char>, Toml)>,
    n: nat,
) -> Option<Seq<(Seq<char>, StrainView)>>
    decreases n,
{
    if n == 0 {
        Some(Seq::empty())
    } else {
        match (decode_strains(t, (n - 1) as nat), decode_strain(t[n - 1].1)) {
            (Some(s), Some(c)) => Some(with_strain(s, t[n - 1].0, c)),
            _ => None,
        }
    }
}

/// The system settings that a document gives.
pub open spec fn decode_sys(doc: Seq<(Seq<char>, Toml)>) -> Option<SysView> {
    match record_at(doc, "sys"@, sys_fields()) {
        None => None,
        Some(t) => match (
            record_at(t, "rootfs"@, rootfs_fields()),
            record_at(t, "efi"@, efi_fields()),
            record_at(t, "bootloader"@, bootloader_fields()),
        ) {
            (Some(rootfs), Some(efi), Some(boot)) => {
                let rootfs_subvol = text_at(t, "rootfs_subvol"@, Some("@"@));
                let snapshot_subvol = text_at(t, "snapshot_subvol"@, Some("@snapshots"@));
                let auto = bool_at(t, "auto_apply_retention"@, true);
                let age = count_at(t, "tombstone_max_age_days"@, 14, u32::MAX as int);
                let backend = text_at(rootfs, "backend"@, Some("btrfs"@));
                let uuid = text_at(rootfs, "device_uuid"@, None);
                let enabled = bool_at(efi, "enabled"@, false);
                let mount = text_at(efi, "mount_point"@, Some("/boot"@));
                let staging = text_at(efi, "staging_subvol"@, Some("@boot"@));
                let loader = text_at(boot, "backend"@, Some("systemd-boot"@));
                if rootfs_subvol is Some && snapshot_subvol is Some && auto is Some && age is Some
                    && backend is Some && uuid is Some && enabled is Some && mount is Some
                    && staging is Some && loader is Some {
                    Some(
                        SysView {
                            rootfs_subvol: rootfs_subvol->0,
                            snapshot_subvol: snapshot_subvol->0,
                            auto_apply_retention: auto->0,
                            tombstone_max_age_days: age->0 as u32,
                            backend: backend->0,
                            device_uuid: uuid->0,
                            efi_enabled: enabled->0,
                            efi_mount: mount->0,
                            staging_subvol: staging->0,
                            bootloader: loader->0,
                        },
                    )
                } else {
                    None
                }
            },
            _ => None,
        },
    }
}

/// The strains that a document gives.
pub open spec fn decode_all_strains(
    doc: Seq<(Seq<char>, Toml)>,
) -> Option<Seq<(Seq<char>, StrainView)>> {
    match lookup(doc, "strain"@) {
        None => Some(Seq::empty()),
        Some(Toml::Table(t)) => decode_strains(t, t.len()),
        Some(_) => None,
    }
}

/// The configuration that a document gives, before validation.
pub open spec fn decode_config(doc: Seq<(Seq<char>, Toml)>) -> Option<ConfigView> {
    match (decode_sys(doc), decode_all_strains(doc)) {
        (Some(sys), Some(strain)) => Some(ConfigView { sys, strain }),
        _ => None,
    }
}

fn bad_field(key: &str) -> (e: RevenantError)
    ensures
        e@ is Config,
{
    RevenantError::Config(cat3("missing or invalid field `", key, "`"))
}

fn text_field(t: &Vec<Field>, key: &str, default: Option<&str>) -> (r: Result<String>)
    ensures
        match r {
            Ok(s) => text_at(field_trees(t@), key@, crate::text::opt_str(default)) == Some(s@),
            Err(e) => text_at(field_trees(t@), key@, crate::text::opt_str(default)) is None
                && e@ is Config,
        },
{
    match get(t, key) {
        Some(v) => match v {
            TomlValue::Text(s) => Ok(s.clone()),
            _ => Err(bad_field(key)),
        },
        None => match default {
            Some(s) => Ok(s.to_owned()),
            None => Err(bad_field(key)),
        },
    }
}

fn bool_field(t: &Vec<Field>, key: &str, default: bool) -> (r: Result<bool>)
    ensures
        match r {
            Ok(b) => bool_at(field_trees(t@), key@, default) == Some(b),
            Err(e) => bool_at(field_trees(t@), key@, default) is None && e@ is Config,
        },
{
    match get(t, key) {
        Some(v) => match v {
            TomlValue::Boolean(b) => Ok(*b),
            _ => Err(bad_field(key)),
        },
        None => Ok(default),
    }
}

fn count_field(t: &Vec<Field>, key: &str, default: u64, max: u64) -> (r: Result<u64>)
    requires
        default <= max,
    ensures
        match r {
            Ok(n) => n <= max && count_at(field_trees(t@), key@, default as int, max as int) == Some(
                n as int,
            ),
            Err(e) => count_at(field_trees(t@), key@, default as int, max as int) is None && e@
                is Config,
        },
{
    match get(t, key) {
        Some(v) => match v {
            TomlValue::Integer(i) => {
                if *i >= 0 && *i as u64 <= max {
                    Ok(*i as u64)
                } else {
                    Err(bad_field(key))
                }
            },
            _ => Err(bad_field(key)),
        },
        None => Ok(default),
    }
}

fn tier(t: &Vec<Field>, key: &str) -> (r: Result<usize>)
    ensures
        match r {
            Ok(n) => count_at(field_trees(t@), key@, 0, usize::MAX as int) == Some(n as int),
            Err(e) => count_at(field_trees(t@), key@, 0, usize::MAX as int) is None && e@ is Config,
        },
{
    match count_field(t, key, 0, usize::MAX as u64) {
        Ok(n) => Ok(n as usize),
        Err(e) => Err(e),
    }
}

fn record_field<'a>(t: &Vec<Field<'a>>, key: &str, names: &Vec<&'static str>) -> (r: Result<
    Vec<Field<'a>>,
>)
    ensures
        match r {
            Ok(u) => record_at(field_trees(t@), key@, name_views(names@)) == Some(
                field_trees(u@),
            ),
            Err(e) => record_at(field_trees(t@), key@, name_views(names@)) is None && e@
                is Config,
        },
{
    match get(t, key) {
        Some(v) => match record_fields(v, names) {
            Some(u) => Ok(u),
            None => Err(bad_field(key)),
        },
        None => Err(bad_field(key)),
    }
}

/// The texts of an array, if all its values are texts.
pub fn array_texts(a: &Vec<TomlValue>) -> (r: Option<Vec<String>>)
    ensures
        match r {
            Some(v) => all_texts(trees(*a, a.len() as nat)) && views(v@) == texts_of(
                trees(*a, a.len() as nat),
            ),
            None => !all_texts(trees(*a, a.len() as nat)),
        },
{
    let ghost all = trees(*a, a.len() as nat);
    proof {
        lemma_trees(*a, a.len() as nat);
    }
    let mut out: Vec<String> = Vec::new();
    let mut i: usize = 0;
    while i < a.len()
        invariant
            i <= a.len(),
            all == trees(*a, a.len() as nat),
            all.len() == a.len(),
            forall|j: int| 0 <= j < a.len() ==> #[trigger] all[j] == tree(a[j]),
            forall|j: int| 0 <= j < i ==> (#[trigger] all[j]) is Text,
            views(out@) == texts_of(all).take(i as int),
        decreases a.len() - i,
    {
        match &a[i] {
            TomlValue::Text(s) => {
                let item = s.clone();
                let ghost before = out@;
                out.push(item);
                proof {
                    lemma_views_push(before, item);
                    assert(all[i as int] == Toml::Text(s@));
                    assert(texts_of(all).take(i + 1) =~= texts_of(all).take(i as int).push(s@));
                }
            },
            _ => {
                assert(!(all[i as int] is Text));
                return None;
            },
        }
        i = i + 1;
    }
    proof {
        assert(texts_of(all).take(a@.len() as int) =~= texts_of(all));
    }
    Some(out)
}

fn texts_field(t: &Vec<Field>, key: &str) -> (r: Result<Vec<String>>)
    ensures
        match r {
            Ok(v) => texts_at(field_trees(t@), key@) == Some(views(v@)),
            Err(e) => texts_at(field_trees(t@), key@) is None && e@ is Config,
        },
{
    match get(t, key) {
        Some(v) => match v {
            TomlValue::Array(a) => match array_texts(a) {
                Some(x) => Ok(x),
                None => Err(bad_field(key)),
            },
            _ => Err(bad_field(key)),
        },
        None => Err(bad_field(key)),
    }
}

fn retain_from(t: &Vec<Field>) -> (r: Result<RetainConfig>)
    ensures
        match r {
            Ok(c) => decode_retain(field_trees(t@)) == Some(c),
            Err(e) => decode_retain(field_trees(t@)) is None && e@ is Config,
        },
{
    if get(t, "retain").is_none() {
        return Ok(RetainConfig::default());
    }
    let names = vec!["last", "hourly", "daily", "weekly", "monthly", "yearly"];
    assert(name_views(names@) =~= retain_fields());
    let u = record_field(t, "retain", &names)?;
    let last: usize = tier(&u, "last")?;
    let hourly: usize = tier(&u, "hourly")?;
    let daily: usize = tier(&u, "daily")?;
    let weekly: usize = tier(&u, "weekly")?;
    let monthly: usize = tier(&u, "monthly")?;
    let yearly: usize = tier(&u, "yearly")?;
    Ok(RetainConfig { last, hourly, daily, weekly, monthly, yearly })
}

fn strain_from(v: &TomlValue) -> (r: Result<StrainConfig>)
    ensures
        match r {
            Ok(c) => decode_strain(tree(*v)) == Some(c@),
            Err(e) => decode_strain(tree(*v)) is None && e@ is Config,
        },
{
    let names = vec!["retain", "subvolumes", "efi"];
    assert(name_views(names@) =~= strain_fields());
    let t = match record_fields(v, &names) {
        Some(t) => t,
        None => {
            return Err(bad_field("strain"));
        },
    };
    let display_name: Option<String> = match get(&t, "display_name") {
        Some(d) => match d {
            TomlValue::Text(s) => Some(s.clone()),
            _ => {
                return Err(bad_field("display_name"));
            },
        },
        None => None,
    };
    let retain = retain_from(&t)?;
    let subvolumes = texts_field(&t, "subvolumes")?;
    let efi: bool = bool_field(&t, "efi", false)?;
    Ok(StrainConfig { display_name, retain, subvolumes, efi })
}

fn sys_from(doc: &Vec<TomlEntry>) -> (r: Result<SysConfig>)
    ensures
        match r {
            Ok(c) => decode_sys(table(*doc)) == Some(c@),
            Err(e) => decode_sys(table(*doc)) is None && e@ is Config,
        },
{
    let sys_names = vec!["rootfs_subvol", "snapshot_subvol", "rootfs", "efi", "bootloader"];
    let rootfs_names = vec!["backend", "device_uuid"];
    let efi_names = vec!["enabled", "mount_point", "staging_subvol"];
    let boot_names = vec!["backend"];
    proof {
        assert(name_views(sys_names@) =~= sys_fields());
        assert(name_views(rootfs_names@) =~= rootfs_fields());
        assert(name_views(efi_names@) =~= efi_fields());
        assert(name_views(boot_names@) =~= bootloader_fields());
    }
    let t = record_field(&table_fields(doc), "sys", &sys_names)?;
    let rootfs = record_field(&t, "rootfs", &rootfs_names)?;
    let efi = record_field(&t, "efi", &efi_names)?;
    let boot = record_field(&t, "bootloader", &boot_names)?;
    let rootfs_subvol = text_field(&t, "rootfs_subvol", Some("@"))?;
    let snapshot_subvol = text_field(&t, "snapshot_subvol", Some("@snapshots"))?;
    let auto_apply_retention: bool = bool_field(&t, "auto_apply_retention", true)?;
    let age: u64 = count_field(&t, "tombstone_max_age_days", 14, u32::MAX as u64)?;
    let backend = text_field(&rootfs, "backend", Some("btrfs"))?;
    let device_uuid = text_field(&rootfs, "device_uuid", None)?;
    let enabled: bool = bool_field(&efi, "enabled", false)?;
    let mount_point = text_field(&efi, "mount_point", Some("/boot"))?;
    let staging_subvol = text_field(&efi, "staging_subvol", Some("@boot"))?;
    let loader = text_field(&boot, "backend", Some("systemd-boot"))?;
    Ok(
        SysConfig {
            rootfs_subvol,
            snapshot_subvol,
            auto_apply_retention,
            tombstone_max_age_days: age as u32,
            rootfs: RootfsConfig { backend, device_uuid },
            efi: EfiConfig { enabled, mount_point, staging_subvol },
            bootloader: BootloaderConfig { backend: loader },
        },
    )
}

fn strains_from(t: &Vec<TomlEntry>) -> (r: Result<StrainMap>)
    ensures
        match r {
            Ok(m) => decode_strains(table(*t), t.len() as nat) == Some(m@),
            Err(e) => decode_strains(table(*t), t.len() as nat) is None && e@ is Config,
        },
{
    let ghost all = table(*t);
    proof {
        lemma_entries(*t, t.len() as nat);
    }
    let mut map = StrainMap::new();
    assert(map@ =~= Seq::empty());
    let mut i: usize = 0;
    while i < t.len()
        invariant
            i <= t.len(),
            all == table(*t),
            forall|j: int|
                0 <= j < t.len() ==> #[trigger] all[j] == (t[j].key@, tree(t[j].value)),
            decode_strains(all, i as nat) == Some(map@),
        decreases t.len() - i,
    {
        assert(all[i as int] == (t[i as int].key@, tree(t[i as int].value)));
        match strain_from(&t[i].value) {
            Ok(c) => {
                map.insert(t[i].key.clone(), c);
                assert(decode_strains(all, (i + 1) as nat) == Some(map@));
            },
            Err(e) => {
                proof {
                    lemma_decode_fails(all, (i + 1) as nat, t.len() as nat);
                }
                return Err(e);
            },
        }
        i = i + 1;
    }
    Ok(map)
}

proof fn lemma_decode_fails(t: Seq<(Seq<char>, Toml)>, k: nat, n: nat)
    requires
        k <= n,
        decode_strains(t, k) is None,
    ensures
        decode_strains(t, n) is None,
    decreases n,
{
    if k < n {
        lemma_decode_fails(t, k, (n - 1) as nat);
    }
}

impl Config {
    /// The configuration that a document's table gives, validated.
    pub fn from_document(doc: &Vec<TomlEntry>) -> (r: Result<Config>)
        ensures
            match r {
                Ok(c) => decode_config(table(*doc)) == Some(c@) && config_fault(c@) is None,
                Err(e) => match decode_config(table(*doc)) {
                    Some(v) => config_fault(v) matches Some(m) && e@ == ErrorView::Config(m),
                    None => e@ is Config,
                },
            },
    {
        proof {
            lemma_entries(*doc, doc.len() as nat);
        }
        let sys = sys_from(doc)?;
        let strain = match get(&table_fields(doc), "strain") {
            None => {
                let m = StrainMap::new();
                assert(m@ =~= Seq::empty());
                m
            },
            Some(v) => match v {
                TomlValue::Table(t) => {
                    proof {
                        lemma_entries(*t, t.len() as nat);
                    }
                    strains_from(t)?
                },
                _ => {
                    return Err(bad_field("strain"));
                },
            },
        };
        let config = Config { sys, strain };
        config.validate()?;
        Ok(config)
    }

    /// Parse a configuration from a TOML text.
    pub fn parse(s: &str) -> (r: Result<Config>)
        ensures
            match toml_document(s@) {
                Ok(doc) => match decode_config(doc) {
                    Some(v) => match config_fault(v) {
                        None => r matches Ok(c) && c@ == v,
                        Some(m) => r matches Err(e) && e@ == ErrorView::Config(m),
                    },
                    None => r matches Err(e) && e@ is Config,
                },
                Err(m) => r matches Err(e) && e@ == ErrorView::Config(m),
            },
    {
        match parse_toml(s) {
            Ok(doc) => Config::from_document(&doc),
            Err(m) => Err(RevenantError::Config(m)),
        }
    }
}

/// Whether `e` is the error on a text that holds no valid configuration. The
/// message on a document of the wrong shape is left open.
pub open spec fn refuses(text: Seq<char>, e: ErrorView) -> bool {
    match toml_document(text) {
        Ok(doc) => match decode_config(doc) {
            Some(v) => config_fault(v) matches Some(m) && e == ErrorView::Config(m),
            None => e is Config,
        },
        Err(m) => e == ErrorView::Config(m),
    }
}

impl Config {
    /// Load configuration from the given path. A missing file is an error.
    pub fn load<B: FileSystemBackend>(backend: &B, path: &FsPath) -> (r: Result<Config>)
        ensures
            backend.reliable() && !backend.state().files.contains_key(path@) ==> (r matches Err(e)
                && e@ == (ErrorView::Io {
                path: path_text(path@),
                source: "No such file or directory (os error 2)"@,
            })),
            backend.state().files.contains_key(path@) && r is Ok ==> toml_document(
                backend.state().files[path@],
            ) is Ok && decode_config(toml_document(backend.state().files[path@])->Ok_0) == Some(
                r->Ok_0@,
            ) && config_fault(r->Ok_0@) is None,
            r is Ok ==> backend.state().files.contains_key(path@),
            backend.reliable() && backend.state().files.contains_key(path@) && toml_document(
                backend.state().files[path@],
            ) is Ok && (decode_config(
                toml_document(backend.state().files[path@])->Ok_0,
            ) matches Some(v) && config_fault(v) is None) ==> r is Ok,
            backend.reliable() && backend.state().files.contains_key(path@) && r is Err ==> refuses(
                backend.state().files[path@],
                r->Err_0@,
            ),
    {
        match backend.read_file(path) {
            Ok(found) => match found {
                Some(text) => Config::parse(text.as_str()),
                None => Err(
                    RevenantError::io(
                        path.display().as_str(),
                        "No such file or directory (os error 2)",
                    ),
                ),
            },
            Err(e) => Err(e),
        }
    }

    /// Load configuration from the default path.
    pub fn load_default<B: FileSystemBackend>(backend: &B) -> (r: Result<Config>)
        ensures
            r is Ok ==> backend.state().files.contains_key(path_of(DEFAULT_CONFIG_PATH@))
                && config_fault(r->Ok_0@) is None && toml_document(
                backend.state().files[path_of(DEFAULT_CONFIG_PATH@)],
            ) is Ok && decode_config(
                toml_document(backend.state().files[path_of(DEFAULT_CONFIG_PATH@)])->Ok_0,
            ) == Some(r->Ok_0@),
            backend.reliable() && !backend.state().files.contains_key(
                path_of(DEFAULT_CONFIG_PATH@),
            ) ==> (r matches Err(e) && e@ == (ErrorView::Io {
                path: path_text(path_of(DEFAULT_CONFIG_PATH@)),
                source: "No such file or directory (os error 2)"@,
            })),
            backend.reliable() && backend.state().files.contains_key(path_of(DEFAULT_CONFIG_PATH@))
                && toml_document(backend.state().files[path_of(DEFAULT_CONFIG_PATH@)]) is Ok && (
            decode_config(
                toml_document(backend.state().files[path_of(DEFAULT_CONFIG_PATH@)])->Ok_0,
            ) matches Some(v) && config_fault(v) is None) ==> r is Ok,
            backend.reliable() && backend.state().files.contains_key(path_of(DEFAULT_CONFIG_PATH@))
                && r is Err ==> refuses(
                backend.state().files[path_of(DEFAULT_CONFIG_PATH@)],
                r->Err_0@,
            ),
    {
        Config::load(backend, &FsPath::new(DEFAULT_CONFIG_PATH))
    }
}

impl core::str::FromStr for Config {
    type Err = RevenantError;

    fn from_str(s: &str) -> (r: core::result::Result<Self, Self::Err>)
        ensures
            match toml_document(s@) {
                Ok(doc) => match decode_config(doc) {
                    Some(v) => match config_fault(v) {
                        None => r matches Ok(c) && c@ == v,
                        Some(m) => r matches Err(e) && e@ == ErrorView::Config(m),
                    },
                    None => r matches Err(e) && e@ is Config,
                },
                Err(m) => r matches Err(e) && e@ == ErrorView::Config(m),
            },
    {
        Config::parse(s)
    }
}

} // verus!
