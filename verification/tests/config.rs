use revenant::backend::mock::MockBackend;
use revenant::backend::FileSystemBackend;
use revenant::config::{Config, RetainConfig};
use revenant::error::RevenantError;
use revenant::init::{
    bootloader_probes, build_config, config_to_toml, detect_all, detect_backend,
    detect_bootloader_with, detect_efi, detect_root_mount, parse_mountinfo_content,
    DetectedConfig, DetectedEfi,
};
use revenant::path::FsPath;

const EXAMPLE_CONFIG: &str = r#"
[sys]
rootfs_subvol = "@"

[sys.rootfs]
backend = "btrfs"
device_uuid = "12345678-1234-1234-1234-123456789abc"

[sys.efi]
enabled = true
mount_point = "/boot"
staging_subvol = "@boot"

[sys.bootloader]
backend = "systemd-boot"

[strain.default]
subvolumes = ["@"]
efi = true

[strain.default.retain]
last = 5
"#;

#[test]
fn parse_example_config() {
    let config = EXAMPLE_CONFIG.parse::<Config>().unwrap();
    assert_eq!(config.sys.rootfs_subvol, "@");
    assert!(config.sys.efi.enabled);
    let default_strain = config.strain("default").unwrap();
    assert_eq!(default_strain.retain.last, 5);
    assert_eq!(default_strain.subvolumes, vec!["@"]);
    assert!(default_strain.efi);
}

#[test]
fn no_retain_section_defaults_to_last_10() {
    let toml = r#"
[sys]
rootfs_subvol = "@"

[sys.rootfs]
backend = "btrfs"
device_uuid = "12345678-1234-1234-1234-123456789abc"

[sys.efi]
enabled = false

[sys.bootloader]
backend = "systemd-boot"

[strain.default]
subvolumes = ["@"]
"#;
    let config = toml.parse::<Config>().unwrap();
    let s = config.strain("default").unwrap();
    assert_eq!(s.retain.last, 10);
    assert_eq!(s.retain.daily, 0);
}

#[test]
fn partial_retain_config() {
    let toml = r#"
[sys]
rootfs_subvol = "@"

[sys.rootfs]
backend = "btrfs"
device_uuid = "12345678-1234-1234-1234-123456789abc"

[sys.efi]
enabled = false

[sys.bootloader]
backend = "systemd-boot"

[strain.default]
subvolumes = ["@"]

[strain.default.retain]
daily = 7
"#;
    let config = toml.parse::<Config>().unwrap();
    let s = config.strain("default").unwrap();
    assert_eq!(s.retain.last, 0);
    assert_eq!(s.retain.daily, 7);
}

#[test]
fn reject_all_zero_retain() {
    let toml = r#"
[sys]
rootfs_subvol = "@"

[sys.rootfs]
backend = "btrfs"
device_uuid = "12345678-1234-1234-1234-123456789abc"

[sys.efi]
enabled = false

[sys.bootloader]
backend = "systemd-boot"

[strain.default]
subvolumes = ["@"]

[strain.default.retain]
last = 0
"#;
    assert!(toml.parse::<Config>().is_err());
}

#[test]
fn reject_unknown_backend() {
    let toml = EXAMPLE_CONFIG.replace("backend = \"btrfs\"", "backend = \"zfs\"");
    assert!(toml.parse::<Config>().is_err());
}

#[test]
fn reject_no_strains() {
    let toml = r#"
[sys]
rootfs_subvol = "@"

[sys.rootfs]
device_uuid = "12345678-1234-1234-1234-123456789abc"

[sys.efi]
enabled = false

[sys.bootloader]
backend = "systemd-boot"
"#;
    assert!(toml.parse::<Config>().is_err());
}

#[test]
fn reject_empty_subvolumes() {
    let toml = EXAMPLE_CONFIG.replace("subvolumes = [\"@\"]", "subvolumes = []");
    assert!(toml.parse::<Config>().is_err());
}

#[test]
fn reject_efi_strain_without_sys_efi() {
    let toml = EXAMPLE_CONFIG.replace("enabled = true", "enabled = false");
    assert!(toml.parse::<Config>().is_err());
}

#[test]
fn reject_invalid_strain_name() {
    let toml = EXAMPLE_CONFIG.replace("[strain.default]", "[strain.\"bad name!\"]");
    assert!(toml.parse::<Config>().is_err());
}

#[test]
fn reject_hyphen_in_strain_name() {
    let toml = EXAMPLE_CONFIG.replace("[strain.default]", "[strain.my-strain]");
    assert!(toml.parse::<Config>().is_err());
}

#[test]
fn reject_reserved_delete_strain_name() {
    let toml = EXAMPLE_CONFIG.replace("[strain.default]", "[strain.DELETE]");
    assert!(toml.parse::<Config>().is_err());
}

#[test]
fn multi_strain_config() {
    let toml = r#"
[sys]
rootfs_subvol = "@"

[sys.rootfs]
device_uuid = "12345678-1234-1234-1234-123456789abc"

[sys.efi]
enabled = true
mount_point = "/boot"
staging_subvol = "@boot"

[sys.bootloader]
backend = "systemd-boot"

[strain.default]
subvolumes = ["@"]
efi = true

[strain.default.retain]
last = 5

[strain.pacman]
subvolumes = ["@"]
efi = false

[strain.pacman.retain]
last = 3
"#;
    let config = toml.parse::<Config>().unwrap();
    assert_eq!(config.strain.len(), 2);
    assert_eq!(config.strain("pacman").unwrap().retain.last, 3);
    assert!(!config.strain("pacman").unwrap().efi);
}

#[test]
fn strain_lookup_not_found() {
    let config = EXAMPLE_CONFIG.parse::<Config>().unwrap();
    assert!(config.strain("nonexistent").is_err());
}

#[test]
fn optional_settings_have_their_defaults() {
    let config = EXAMPLE_CONFIG.parse::<Config>().unwrap();
    assert_eq!(config.sys.snapshot_subvol, "@snapshots");
    assert!(config.sys.auto_apply_retention);
    assert_eq!(config.sys.tombstone_max_age_days, 14);
    assert_eq!(config.sys.rootfs.backend, "btrfs");
    assert_eq!(RetainConfig::default().last, 10);
}

#[test]
fn refusals_name_the_fault() {
    let toml = EXAMPLE_CONFIG.replace("backend = \"btrfs\"", "backend = \"zfs\"");
    match toml.parse::<Config>() {
        Err(RevenantError::Config(m)) => assert!(m.contains("zfs"), "{}", m),
        other => panic!("{:?}", other),
    }
    let toml = EXAMPLE_CONFIG.replace("strain.default", "strain.DELETE");
    match toml.parse::<Config>() {
        Err(RevenantError::Config(m)) => assert!(m.contains("DELETE"), "{}", m),
        other => panic!("{:?}", other),
    }
    match "[sys".parse::<Config>() {
        Err(RevenantError::Config(m)) => assert!(!m.is_empty()),
        other => panic!("{:?}", other),
    }
    match "x = 1".parse::<Config>() {
        Err(RevenantError::Config(_)) => {}
        other => panic!("{:?}", other),
    }
}

#[test]
fn loading_reads_the_file() {
    let mut mock = MockBackend::new();
    let path = FsPath::new("/etc/revenant/config.toml");
    match Config::load(&mock, &path) {
        Err(RevenantError::Io { path, source }) => {
            assert_eq!(path, "/etc/revenant/config.toml");
            assert_eq!(source, "No such file or directory (os error 2)");
        }
        other => panic!("{:?}", other),
    }
    mock.write_file(&path, EXAMPLE_CONFIG).unwrap();
    assert_eq!(Config::load(&mock, &path).unwrap().sys.rootfs_subvol, "@");
    assert_eq!(Config::load_default(&mock).unwrap().strain.len(), 1);
}

const SAMPLE_MOUNTINFO: &str = "\
22 1 259:2 /@ / rw,relatime shared:1 - btrfs /dev/nvme0n1p2 rw,ssd,space_cache=v2,subvolid=256,subvol=/@
23 22 259:2 /@home /home rw,relatime shared:2 - btrfs /dev/nvme0n1p2 rw,ssd,space_cache=v2,subvolid=257,subvol=/@home
24 22 259:1 / /boot rw,relatime shared:3 - vfat /dev/nvme0n1p1 rw,fmask=0022,dmask=0022,codepage=437,iocharset=ascii,shortname=mixed,utf8,errors=remount-ro
";

#[test]
fn parse_mountinfo_entries() {
    let entries = parse_mountinfo_content(SAMPLE_MOUNTINFO);
    assert_eq!(entries.len(), 3);
    assert_eq!(entries[0].mount_point, "/");
    assert_eq!(entries[0].fs_type, "btrfs");
    assert_eq!(entries[0].root, "/@");
    assert_eq!(entries[1].mount_point, "/home");
    assert_eq!(entries[2].mount_point, "/boot");
    assert_eq!(entries[2].fs_type, "vfat");
}

#[test]
fn detect_backend_btrfs() {
    let entries = parse_mountinfo_content(SAMPLE_MOUNTINFO);
    assert_eq!(detect_backend(&entries), Some("btrfs".to_string()));
}

#[test]
fn detect_root_mount_subvol() {
    let entries = parse_mountinfo_content(SAMPLE_MOUNTINFO);
    let (device, subvol) = detect_root_mount(&entries).unwrap();
    assert_eq!(device, "/dev/nvme0n1p2");
    assert_eq!(subvol, "@");
}

#[test]
fn detect_bootloader_systemd_boot() {
    let existing = vec!["/boot/loader/loader.conf".to_string()];
    assert_eq!(
        detect_bootloader_with(Some("/boot"), &existing),
        Some("systemd-boot".to_string())
    );
}

#[test]
fn detect_bootloader_grub_bios() {
    let existing = vec!["/boot/grub/grub.cfg".to_string()];
    assert_eq!(detect_bootloader_with(None, &existing), Some("grub".to_string()));
}

#[test]
fn detect_bootloader_grub2_fedora() {
    let existing = vec!["/boot/grub2/grub.cfg".to_string()];
    assert_eq!(
        detect_bootloader_with(Some("/boot/efi"), &existing),
        Some("grub".to_string())
    );
}

#[test]
fn detect_bootloader_grub_on_esp() {
    // The partition is mounted at /efi, with grub.cfg on it.
    let existing = vec!["/efi/grub/grub.cfg".to_string()];
    assert_eq!(
        detect_bootloader_with(Some("/efi"), &existing),
        Some("grub".to_string())
    );
}

#[test]
fn detect_bootloader_none() {
    assert_eq!(detect_bootloader_with(Some("/boot"), &vec![]), None);
    assert_eq!(detect_bootloader_with(None, &vec![]), None);
}

#[test]
fn probed_files_decide_the_bootloader() {
    let probes = bootloader_probes(Some("/efi"));
    assert!(probes.contains(&"/efi/loader/loader.conf".to_string()));
    assert!(probes.contains(&"/efi/grub/grub.cfg".to_string()));
    assert!(probes.contains(&"/boot/grub2/grub.cfg".to_string()));
}

#[test]
fn detect_efi_mount() {
    let entries = parse_mountinfo_content(SAMPLE_MOUNTINFO);
    let efi = detect_efi(&entries).unwrap();
    assert_eq!(efi.mount_point, "/boot");
}

#[test]
fn detection_gathers_everything() {
    let found = detect_all(
        SAMPLE_MOUNTINFO,
        Some("12345678-1234-1234-1234-123456789abc"),
        &vec!["/boot/loader/loader.conf".to_string()],
    )
    .unwrap();
    assert_eq!(found.backend, "btrfs");
    assert_eq!(found.rootfs_subvol, "@");
    assert_eq!(found.efi.unwrap().mount_point, "/boot");
    assert_eq!(found.bootloader, Some("systemd-boot".to_string()));
    assert!(detect_all("", Some("u"), &vec![]).is_err());
    assert!(detect_all(SAMPLE_MOUNTINFO, None, &vec![]).is_err());
}

fn detected() -> DetectedConfig {
    DetectedConfig {
        backend: "btrfs".to_string(),
        device_uuid: "12345678-1234-1234-1234-123456789abc".to_string(),
        rootfs_subvol: "@".to_string(),
        efi: Some(DetectedEfi { mount_point: "/boot".to_string() }),
        bootloader: Some("systemd-boot".to_string()),
    }
}

#[test]
fn build_config_from_detected() {
    let config = build_config(detected());
    assert_eq!(config.sys.rootfs_subvol, "@");
    assert!(config.sys.efi.enabled);
    assert_eq!(config.strain.len(), 1);
    let default = config.strain("default").unwrap();
    assert_eq!(default.retain.last, 10);
    assert!(default.efi);
    assert_eq!(default.subvolumes, vec!["@"]);
}

#[test]
fn config_to_toml_roundtrip() {
    let config = build_config(detected());
    let toml_str = config_to_toml(&config).unwrap();
    let parsed = toml_str.parse::<Config>().unwrap();
    assert_eq!(
        parsed.sys.rootfs.device_uuid,
        "12345678-1234-1234-1234-123456789abc"
    );
    assert_eq!(parsed.strain.len(), 1);
    assert!(toml_str.starts_with("# Revenant configuration\n"));
}

const ANNOTATED_EXAMPLE: &str = r#"[sys]
rootfs_subvol = "@"
snapshot_subvol = "@snapshots"
# Apply per-strain retention automatically after `revenantctl snapshot`.
# When false, snapshot creation never deletes anything; retention runs
# only when `cleanup` is invoked explicitly.
auto_apply_retention = true
# DELETE markers (`<base>-DELETE-<ts>` subvols left behind by a previous
# restore) auto-expire after this many days as part of any retention
# run. 0 disables auto-expiry; `cleanup --force` always purges them.
tombstone_max_age_days = 14

[sys.rootfs]
backend = "btrfs"
device_uuid = "xxxxxxxx-xxxx-xxxx-xxxx-xxxxxxxxxxxx"

[sys.efi]
enabled = true
mount_point = "/boot"
staging_subvol = "@boot"

[sys.bootloader]
backend = "systemd-boot"

[strain.default]
subvolumes = ["@"]
efi = true

[strain.default.retain]
last = 5
daily = 7
"#;

#[test]
fn example_config_parseable() {
    // The example has a placeholder UUID.
    let fixed = ANNOTATED_EXAMPLE.replace(
        "xxxxxxxx-xxxx-xxxx-xxxx-xxxxxxxxxxxx",
        "12345678-1234-1234-1234-123456789abc",
    );
    let config = fixed.parse::<Config>().unwrap();
    assert_eq!(config.sys.rootfs_subvol, "@");
    assert!(config.strain.contains_key("default"));
}

#[test]
fn what_is_written_reads_back() {
    let text = EXAMPLE_CONFIG
        .replace("subvolumes = [\"@\"]", "subvolumes = [\"@\", \"@ho\\\"me 'x'\", \"@ä#[b]\"]")
        + "\n[strain.hourly_2]\nsubvolumes = [\"@\"]\ndisplay_name = \"Every hour\"\n\n[strain.hourly_2.retain]\nhourly = 48\nyearly = 1\n";
    let first: Config = text.parse().unwrap();
    let written = config_to_toml(&first).unwrap();
    let again: Config = written.parse().unwrap();
    assert_eq!(again.sys.efi.mount_point, "/boot");
    assert_eq!(again.sys.efi.staging_subvol, "@boot");
    assert_eq!(again.sys.tombstone_max_age_days, first.sys.tombstone_max_age_days);
    assert_eq!(again.strain.len(), 2);
    let default = again.strain("default").unwrap();
    assert_eq!(default.subvolumes, vec!["@", "@ho\"me 'x'", "@ä#[b]"]);
    assert!(default.efi);
    assert_eq!(default.retain.last, 5);
    let hourly = again.strain("hourly_2").unwrap();
    assert_eq!(hourly.display_name.as_deref(), Some("Every hour"));
    assert_eq!(hourly.retain.hourly, 48);
    assert_eq!(hourly.retain.yearly, 1);
    assert_eq!(hourly.retain.last, 0);
    assert_eq!(config_to_toml(&again).unwrap(), written);
}

#[test]
fn configuration_with_any_characters_is_read_back() {
    let mut config: Config = EXAMPLE_CONFIG.parse().unwrap();
    config.sys.rootfs.device_uuid = "a\nb\t\"c\" \\ \u{1} '''".to_string();
    let text = config_to_toml(&config).unwrap();
    let back = Config::parse(&text).unwrap();
    assert_eq!(back.sys.rootfs.device_uuid, config.sys.rootfs.device_uuid);
}

#[test]
fn configuration_with_a_long_run_of_quotes_is_refused() {
    let mut config: Config = EXAMPLE_CONFIG.parse().unwrap();
    config.sys.rootfs.device_uuid = "'".repeat(255);
    let text = config_to_toml(&config).unwrap();
    assert_eq!(Config::parse(&text).unwrap().sys.rootfs.device_uuid, "'".repeat(255));
    config.sys.rootfs.device_uuid = "\"".repeat(256);
    assert!(matches!(config_to_toml(&config), Err(RevenantError::Other(_))));
}

#[test]
fn records_may_be_written_as_arrays() {
    let config: Config = r#"
[sys]
rootfs = ["btrfs", "12345678-1234-1234-1234-123456789abc"]
efi = [true, "/efi"]
bootloader = []

[strain.default]
subvolumes = ["@"]
retain = [5, 0, 7]
"#
    .parse()
    .unwrap();
    assert_eq!(config.sys.rootfs.backend, "btrfs");
    assert_eq!(config.sys.rootfs.device_uuid, "12345678-1234-1234-1234-123456789abc");
    assert!(config.sys.efi.enabled);
    assert_eq!(config.sys.efi.mount_point, "/efi");
    assert_eq!(config.sys.efi.staging_subvol, "@boot");
    assert_eq!(config.sys.bootloader.backend, "systemd-boot");
    let retain = &config.strain("default").unwrap().retain;
    assert_eq!((retain.last, retain.hourly, retain.daily), (5, 0, 7));
    assert_eq!((retain.weekly, retain.monthly, retain.yearly), (0, 0, 0));
}

#[test]
fn a_whole_configuration_may_be_written_as_arrays() {
    let config: Config = r#"
sys = ["@root", "@snaps", ["btrfs", "u"], [true], ["grub"], "ignored"]

[strain]
other = [[3], ["@home"], true, "ignored"]
plain = [[1], ["@"]]
"#
    .parse()
    .unwrap();
    assert_eq!(config.sys.rootfs_subvol, "@root");
    assert_eq!(config.sys.snapshot_subvol, "@snaps");
    assert_eq!(config.sys.rootfs.device_uuid, "u");
    assert_eq!(config.sys.bootloader.backend, "grub");
    assert_eq!(config.sys.tombstone_max_age_days, 14);
    let other = config.strain("other").unwrap();
    assert_eq!(other.retain.last, 3);
    assert_eq!(other.subvolumes, vec!["@home"]);
    assert!(other.efi);
    assert!(!config.strain("plain").unwrap().efi);
}

#[test]
fn arrays_of_the_wrong_shape_are_refused() {
    let base = |rootfs: &str, efi: &str, strain: &str| {
        format!(
            "sys = [\"@\", \"@s\", {}, {}, []]\n[strain]\ndefault = {}\n",
            rootfs, efi, strain
        )
    };
    assert!(Config::parse(&base("[\"btrfs\", \"u\"]", "[]", "[[1], [\"@\"]]")).is_ok());
    // A field without a default must be given.
    assert!(Config::parse(&base("[\"btrfs\"]", "[]", "[[1], [\"@\"]]")).is_err());
    assert!(Config::parse(&base("[\"btrfs\", \"u\"]", "[]", "[[1]]")).is_err());
    // The order counts.
    assert!(Config::parse(&base("[\"btrfs\", \"u\"]", "[]", "[[\"@\"], [1]]")).is_err());
    assert!(Config::parse(&base("[\"btrfs\", \"u\"]", "[\"/efi\"]", "[[1], [\"@\"]]")).is_err());
    // A date has no field that matters, a number is no record.
    assert!(Config::parse(&base("[\"btrfs\", \"u\"]", "1979-05-27", "[[1], [\"@\"]]")).is_ok());
    assert!(Config::parse(&base("[\"btrfs\", \"u\"]", "1.5", "[[1], [\"@\"]]")).is_err());
    assert!(Config::parse(&base("1979-05-27", "[]", "[[1], [\"@\"]]")).is_err());
}
