//! Systemd units for boot and periodic snapshots.

use vstd::prelude::*;
use vstd::string::*;

use crate::text::{cat3, cat7};

verus! {

/// Parameters for generating systemd unit files.
#[derive(Debug)]
pub struct SystemdUnitParams {
    pub bin_path: String,
    pub config_path: String,
    pub boot_strain: String,
    pub periodic_strain: String,
    pub timer_calendar: String,
}

/// A generated systemd unit file.
#[derive(Debug)]
pub struct UnitFile {
    pub filename: String,
    pub content: String,
}

/// The command line of a snapshot unit. `%n` stands for the unit's own name.
pub open spec fn exec_line(
    bin: Seq<char>,
    config: Seq<char>,
    strain: Seq<char>,
    trigger: Seq<char>,
) -> Seq<char> {
    bin + " --config "@ + config + " snapshot "@ + strain + " --trigger "@ + trigger
        + " --trigger-unit %n"@
}

/// Build the `ExecStart=` line for a snapshot unit.
pub fn exec_start(bin_path: &str, config_path: &str, strain: &str, trigger: &str) -> (r: String)
    ensures
        r@ == exec_line(bin_path@, config_path@, strain@, trigger@),
{
    let mut s = cat7(bin_path, " --config ", config_path, " snapshot ", strain, " --trigger ", trigger);
    s.append(" --trigger-unit %n");
    s
}

/// The content of the boot service.
pub open spec fn boot_service_text(exec: Seq<char>) -> Seq<char> {
    "[Unit]\nDescription=Revenant boot snapshot\nAfter=local-fs.target\n\n[Service]\nType=oneshot\nExecStart="@
        + exec + "\n\n[Install]\nWantedBy=multi-user.target\n"@
}

/// The content of the periodic service.
pub open spec fn periodic_service_text(exec: Seq<char>) -> Seq<char> {
    "[Unit]\nDescription=Revenant periodic snapshot\n\n[Service]\nType=oneshot\nExecStart="@ + exec
        + "\n"@
}

/// The content of the periodic timer.
pub open spec fn periodic_timer_text(calendar: Seq<char>) -> Seq<char> {
    "[Unit]\nDescription=Revenant periodic snapshot timer\n\n[Timer]\nOnCalendar="@ + calendar
        + "\nPersistent=true\n\n[Install]\nWantedBy=timers.target\n"@
}

/// Generate systemd unit files for boot and periodic snapshots.
#[must_use]
pub fn generate_units(params: &SystemdUnitParams) -> (r: Vec<UnitFile>)
    ensures
        r@.len() == 3,
        r@[0].filename@ == "revenant-boot.service"@,
        r@[0].content@ == boot_service_text(
            exec_line(
                params.bin_path@,
                params.config_path@,
                params.boot_strain@,
                "systemd-boot"@,
            ),
        ),
        r@[1].filename@ == "revenant-periodic.service"@,
        r@[1].content@ == periodic_service_text(
            exec_line(
                params.bin_path@,
                params.config_path@,
                params.periodic_strain@,
                "systemd-periodic"@,
            ),
        ),
        r@[2].filename@ == "revenant-periodic.timer"@,
        r@[2].content@ == periodic_timer_text(params.timer_calendar@),
{
    let bin = params.bin_path.as_str();
    let config = params.config_path.as_str();
    let boot = exec_start(bin, config, params.boot_strain.as_str(), "systemd-boot");
    let periodic = exec_start(bin, config, params.periodic_strain.as_str(), "systemd-periodic");
    let mut units: Vec<UnitFile> = Vec::new();
    units.push(
        UnitFile {
            filename: "revenant-boot.service".to_owned(),
            content: cat3(
                "[Unit]\nDescription=Revenant boot snapshot\nAfter=local-fs.target\n\n[Service]\nType=oneshot\nExecStart=",
                boot.as_str(),
                "\n\n[Install]\nWantedBy=multi-user.target\n",
            ),
        },
    );
    units.push(
        UnitFile {
            filename: "revenant-periodic.service".to_owned(),
            content: cat3(
                "[Unit]\nDescription=Revenant periodic snapshot\n\n[Service]\nType=oneshot\nExecStart=",
                periodic.as_str(),
                "\n",
            ),
        },
    );
    units.push(
        UnitFile {
            filename: "revenant-periodic.timer".to_owned(),
            content: cat3(
                "[Unit]\nDescription=Revenant periodic snapshot timer\n\n[Timer]\nOnCalendar=",
                params.timer_calendar.as_str(),
                "\nPersistent=true\n\n[Install]\nWantedBy=timers.target\n",
            ),
        },
    );
    units
}

} // verus!
