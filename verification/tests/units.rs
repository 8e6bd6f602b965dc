use revenant::pkgmgr::pacman::Pacman;
use revenant::pkgmgr::{all_package_managers, HookParams, PackageManager};
use revenant::systemd::{generate_units, SystemdUnitParams};

fn hook_params() -> HookParams {
    HookParams {
        bin_path: "/usr/local/bin/revenantctl".to_string(),
        config_path: "/etc/revenant/config.toml".to_string(),
        strain: "pacman".to_string(),
    }
}

#[test]
fn default_hook_dir_is_pacman_d_hooks() {
    assert_eq!(Pacman.default_hook_dir(), "/etc/pacman.d/hooks");
}

#[test]
fn generates_one_hook() {
    let hooks = Pacman.generate_hooks(&hook_params());
    assert_eq!(hooks.len(), 1);
    assert_eq!(hooks[0].filename, "50-revenant-snapshot.hook");
}

#[test]
fn hook_has_pretransaction_when() {
    let hooks = Pacman.generate_hooks(&hook_params());
    let content = &hooks[0].content;
    assert!(content.contains("[Trigger]"));
    assert!(content.contains("[Action]"));
    assert!(content.contains("When = PreTransaction"));
    assert!(!content.contains("PostTransaction"));
}

#[test]
fn hook_targets_all_packages() {
    let hooks = Pacman.generate_hooks(&hook_params());
    let content = &hooks[0].content;
    assert!(content.contains("Operation = Install"));
    assert!(content.contains("Operation = Upgrade"));
    assert!(content.contains("Operation = Remove"));
    assert!(content.contains("Type = Package"));
    assert!(content.contains("Target = *"));
}

#[test]
fn hook_contains_strain_name() {
    let mut params = hook_params();
    params.strain = "pacman-custom".to_string();
    let hooks = Pacman.generate_hooks(&params);
    assert!(hooks[0].content.contains("snapshot pacman-custom"));
}

#[test]
fn hook_requests_targets_on_stdin() {
    let hooks = Pacman.generate_hooks(&hook_params());
    let content = &hooks[0].content;
    assert!(
        content.contains("NeedsTargets"),
        "hook must set NeedsTargets so stdin carries the package list"
    );
    assert!(
        content.contains("--trigger pacman"),
        "Exec must pass --trigger pacman so the snapshot is tagged correctly"
    );
    assert!(
        content.contains("--from-stdin"),
        "Exec must pass --from-stdin so revenantctl reads the package list from stdin"
    );
}

#[test]
fn hook_is_non_blocking_via_or_true() {
    // A failing snapshot must not abort the transaction.
    let hooks = Pacman.generate_hooks(&hook_params());
    assert!(hooks[0].content.contains("|| true"));
}

#[test]
fn custom_bin_path_propagates() {
    let mut params = hook_params();
    params.bin_path = "/opt/revenant/revenantctl".to_string();
    let hooks = Pacman.generate_hooks(&params);
    assert!(hooks[0].content.contains("/opt/revenant/revenantctl"));
}

#[test]
fn custom_config_path_propagates() {
    let mut params = hook_params();
    params.config_path = "/home/test/revenant.toml".to_string();
    let hooks = Pacman.generate_hooks(&params);
    assert!(hooks[0].content.contains("--config /home/test/revenant.toml"));
}

#[test]
fn pm_name() {
    assert_eq!(Pacman.name(), "pacman");
}

#[test]
fn stale_runtime_files_lists_db_lck() {
    // Relative, so that it can be joined onto the root of a subvolume.
    let stale = Pacman.stale_runtime_files();
    assert_eq!(stale, vec!["var/lib/pacman/db.lck"]);
    assert!(
        !stale[0].starts_with('/'),
        "stale_runtime_files must return rootfs-relative paths"
    );
}

#[test]
fn pacman_is_known() {
    assert_eq!(all_package_managers().len(), 1);
}

fn unit_params() -> SystemdUnitParams {
    SystemdUnitParams {
        bin_path: "/usr/local/bin/revenantctl".to_string(),
        config_path: "/etc/revenant/config.toml".to_string(),
        boot_strain: "default".to_string(),
        periodic_strain: "periodic".to_string(),
        timer_calendar: "hourly".to_string(),
    }
}

#[test]
fn generates_three_units() {
    let units = generate_units(&unit_params());
    assert_eq!(units.len(), 3);
    assert_eq!(units[0].filename, "revenant-boot.service");
    assert_eq!(units[1].filename, "revenant-periodic.service");
    assert_eq!(units[2].filename, "revenant-periodic.timer");
}

#[test]
fn boot_service_content() {
    let units = generate_units(&unit_params());
    let content = &units[0].content;
    assert!(content.contains("Type=oneshot"));
    assert!(content.contains("WantedBy=multi-user.target"));
    assert!(content.contains("snapshot default"));
    assert!(content.contains("/usr/local/bin/revenantctl --config /etc/revenant/config.toml"));
}

#[test]
fn periodic_service_content() {
    let units = generate_units(&unit_params());
    let content = &units[1].content;
    assert!(content.contains("Type=oneshot"));
    assert!(content.contains("snapshot periodic"));
    assert!(!content.contains("[Install]"));
}

#[test]
fn periodic_timer_content() {
    let units = generate_units(&unit_params());
    let content = &units[2].content;
    assert!(content.contains("OnCalendar=hourly"));
    assert!(content.contains("Persistent=true"));
    assert!(content.contains("WantedBy=timers.target"));
}

#[test]
fn custom_timer_interval() {
    let mut params = unit_params();
    params.timer_calendar = "*-*-* 00/4:00:00".to_string();
    let units = generate_units(&params);
    assert!(units[2].content.contains("OnCalendar=*-*-* 00/4:00:00"));
}

#[test]
fn custom_strains() {
    let mut params = unit_params();
    params.boot_strain = "boot".to_string();
    params.periodic_strain = "hourly".to_string();
    let units = generate_units(&params);
    assert!(units[0].content.contains("snapshot boot"));
    assert!(units[1].content.contains("snapshot hourly"));
}

#[test]
fn units_pass_trigger_context() {
    // The unit's name is given by the systemd specifier `%n`.
    let units = generate_units(&unit_params());
    assert!(units[0].content.contains("--trigger systemd-boot"));
    assert!(units[0].content.contains("--trigger-unit %n"));
    assert!(units[1].content.contains("--trigger systemd-periodic"));
    assert!(units[1].content.contains("--trigger-unit %n"));
}
