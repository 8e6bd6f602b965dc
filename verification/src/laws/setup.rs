//! What `init` makes: strains for hooks, and the files that take snapshots by
//! themselves.

use vstd::prelude::*;
use vstd::string::*;

use crate::assoc::{lemma_lookup_push, lookup};
use crate::backend::FsState;
use crate::bootloader::systemd_boot::{rollback_path, rollback_text};
use crate::cli::setup::{
    added_lines, base_config, config_text, configured, detected_task, ensured, extend_tasks,
    extended, extension_tasks, file_line, fresh_tasks, hook_tasks, hook_views, hooked, in_the_way,
    init_tasks, install_status, installed, mode_for, nth_status, status_name, task_lines,
    unit_tasks, unit_views, unobstructed, FileStatus, InitArgs, InitMode, TaskView,
};
use crate::config::{ConfigView, RetainConfig};
use crate::init::DetectedConfig;
use crate::laws::health::occurs;
use crate::path::{is_component, lemma_join_component, path_join, path_of, PathView};
use crate::pkgmgr::pacman::{hook_content, hook_exec};
use crate::systemd::{boot_service_text, exec_line, periodic_service_text, periodic_timer_text};

verus! {

/// A text occurs between two others.
pub proof fn lemma_occurs(a: Seq<char>, part: Seq<char>, b: Seq<char>, s: Seq<char>)
    requires
        s =~= a + part + b,
    ensures
        occurs(part, s),
{
    assert(s == a + part + b);
}

proof fn lemma_ensured(c: ConfigView, name: Seq<char>, retain: RetainConfig, n: Seq<char>)
    ensures
        lookup(ensured(c, name, retain).strain, n) == if lookup(c.strain, n) is Some {
            lookup(c.strain, n)
        } else if n == name {
            Some(
                crate::config::StrainView {
                    display_name: None,
                    retain,
                    subvolumes: seq![c.sys.rootfs_subvol],
                    efi: c.sys.efi_enabled,
                },
            )
        } else {
            None
        },
        ensured(c, name, retain).sys == c.sys,
{
    if lookup(c.strain, name) is None {
        lemma_lookup_push(
            c.strain,
            name,
            crate::config::StrainView {
                display_name: None,
                retain,
                subvolumes: seq![c.sys.rootfs_subvol],
                efi: c.sys.efi_enabled,
            },
            n,
        );
    }
}

/// For the hooks that are asked for, `init` adds the strains that are missing:
/// each takes the rootfs subvolume, and EFI where the system syncs it. Boot
/// snapshots are kept for the last five; periodic ones for the last five, 48
/// hours and 14 days; those of package transactions for the last ten. A strain
/// that is there stays as it is, and no other is added.
pub proof fn law_strains_for_hooks(c: ConfigView, args: InitArgs, n: Seq<char>)
    ensures
        extended(c, args).sys == c.sys,
        lookup(c.strain, n) is Some ==> lookup(extended(c, args).strain, n) == lookup(c.strain, n),
        lookup(c.strain, n) is None ==> (lookup(extended(c, args).strain, n) is Some <==> (
        args.systemd && (n == args.boot_strain@ || n == args.periodic_strain@)) || (args.pacman && n
            == args.pacman_strain@)),
        lookup(c.strain, n) is None ==> (lookup(extended(c, args).strain, n) matches Some(s)
            ==> s.subvolumes == seq![c.sys.rootfs_subvol] && s.efi == c.sys.efi_enabled),
        lookup(c.strain, n) is None && args.systemd && n == args.boot_strain@ ==> (lookup(
            extended(c, args).strain,
            n,
        ) matches Some(s) && s.retain.last == 5 && s.retain.hourly == 0 && s.retain.daily == 0
            && s.retain.weekly == 0 && s.retain.monthly == 0 && s.retain.yearly == 0),
        lookup(c.strain, n) is None && args.systemd && n == args.periodic_strain@ && n
            != args.boot_strain@ ==> (lookup(extended(c, args).strain, n) matches Some(s)
            && s.retain.last == 5 && s.retain.hourly == 48 && s.retain.daily == 14
            && s.retain.weekly == 0 && s.retain.monthly == 0 && s.retain.yearly == 0),
        lookup(c.strain, n) is None && args.pacman && n == args.pacman_strain@ && !(args.systemd && (
        n == args.boot_strain@ || n == args.periodic_strain@)) ==> (lookup(
            extended(c, args).strain,
            n,
        ) matches Some(s) && s.retain.last == 10 && s.retain.hourly == 0 && s.retain.daily == 0
            && s.retain.weekly == 0 && s.retain.monthly == 0 && s.retain.yearly == 0),
{
    let boot = RetainConfig { last: 5, hourly: 0, daily: 0, weekly: 0, monthly: 0, yearly: 0 };
    let per = RetainConfig { last: 5, hourly: 48, daily: 14, weekly: 0, monthly: 0, yearly: 0 };
    let pac = RetainConfig { last: 10, hourly: 0, daily: 0, weekly: 0, monthly: 0, yearly: 0 };
    let c1 = ensured(c, args.boot_strain@, boot);
    let c2 = ensured(c1, args.periodic_strain@, per);
    lemma_ensured(c, args.boot_strain@, boot, n);
    lemma_ensured(c1, args.periodic_strain@, per, n);
    lemma_ensured(c2, args.pacman_strain@, pac, n);
    lemma_ensured(c, args.pacman_strain@, pac, n);
}

/// Without hooks nothing is added.
pub proof fn law_no_hooks_no_strains(c: ConfigView, args: InitArgs)
    requires
        !args.systemd,
        !args.pacman,
    ensures
        extended(c, args) == c,
{
}

/// An existing configuration file is rewritten only where a strain is missing,
/// and then with all that it had.
pub proof fn law_existing_config_is_kept(st: FsState, args: InitArgs, d: DetectedConfig)
    requires
        st.files.contains_key(path_of(args.output_path@)),
    ensures
        ({
            let c = base_config(st, args, d);
            &&& configured(st, args, d) == st || configured(st, args, d)
                == crate::cli::setup::config_written(
                st,
                path_of(args.output_path@),
                extended(c, args),
            )
            &&& (args.systemd ==> lookup(c.strain, args.boot_strain@) is Some && lookup(
                c.strain,
                args.periodic_strain@,
            ) is Some) && (args.pacman ==> lookup(c.strain, args.pacman_strain@) is Some)
                ==> configured(st, args, d) == st
            &&& configured(st, args, d).subvols == st.subvols
            &&& forall|p: PathView| p != path_of(args.output_path@) ==> (#[trigger] configured(
                st,
                args,
                d,
            ).files.contains_key(p) == st.files.contains_key(p))
        }),
{
    let c = base_config(st, args, d);
    if (args.systemd ==> lookup(c.strain, args.boot_strain@) is Some && lookup(
        c.strain,
        args.periodic_strain@,
    ) is Some) && (args.pacman ==> lookup(c.strain, args.pacman_strain@) is Some) {
        assert(extension_tasks(c, args) =~= Seq::empty());
    }
}

/// How `init` goes about it: it makes a configuration where there is none,
/// extends one that is there where a hook is asked for, and refuses else.
pub proof fn law_init_mode(config_exists: bool, systemd: bool, pacman: bool)
    ensures
        mode_for(config_exists, systemd, pacman) == InitMode::Fresh <==> !config_exists,
        mode_for(config_exists, systemd, pacman) == InitMode::Extend <==> config_exists && (systemd
            || pacman),
        mode_for(config_exists, systemd, pacman) == InitMode::Refuse <==> config_exists && !systemd
            && !pacman,
{
}

/// A generated file is reported as written where there was none, unchanged
/// where the same was there, and overwritten else.
pub proof fn law_file_status(st: FsState, p: PathView, content: Seq<char>)
    ensures
        install_status(st, p, content) == FileStatus::Written <==> !st.files.contains_key(p),
        install_status(st, p, content) == FileStatus::Unchanged <==> st.files.contains_key(p)
            && st.files[p] == content,
        install_status(st, p, content) == FileStatus::Overwritten <==> st.files.contains_key(p)
            && st.files[p] != content,
{
}

/// The command line of a unit takes a snapshot of the given strain with the
/// given program and configuration, and says what triggered it.
pub proof fn law_unit_command(
    bin: Seq<char>,
    config: Seq<char>,
    strain: Seq<char>,
    trigger: Seq<char>,
)
    ensures
        (bin + " --config "@ + config + " snapshot "@ + strain + " --trigger "@ + trigger
            + " "@).is_prefix_of(exec_line(bin, config, strain, trigger)),
        occurs("--trigger-unit %n"@, exec_line(bin, config, strain, trigger)),
{
    reveal_strlit(" --trigger-unit %n");
    reveal_strlit("--trigger-unit %n");
    reveal_strlit(" ");
    let s = exec_line(bin, config, strain, trigger);
    let head = bin + " --config "@ + config + " snapshot "@ + strain + " --trigger "@ + trigger;
    assert(" --trigger-unit %n"@ =~= " "@ + "--trigger-unit %n"@);
    assert((head + " "@) =~= s.subrange(0, (head + " "@).len() as int));
    lemma_occurs(head + " "@, "--trigger-unit %n"@, Seq::empty(), s);
}

/// The boot service runs its command once when the system comes up.
pub proof fn law_boot_service(exec: Seq<char>)
    ensures
        occurs("\nExecStart="@ + exec + "\n"@, boot_service_text(exec)),
        occurs("\nType=oneshot\n"@, boot_service_text(exec)),
        occurs("\nWantedBy=multi-user.target\n"@, boot_service_text(exec)),
{
    let text = boot_service_text(exec);
    let head =
        "[Unit]\nDescription=Revenant boot snapshot\nAfter=local-fs.target\n\n[Service]\nType=oneshot\nExecStart="@;
    let tail = "\n\n[Install]\nWantedBy=multi-user.target\n"@;
    reveal_strlit(
        "[Unit]\nDescription=Revenant boot snapshot\nAfter=local-fs.target\n\n[Service]\nType=oneshot\nExecStart=",
    );
    reveal_strlit("\n\n[Install]\nWantedBy=multi-user.target\n");
    reveal_strlit("\nExecStart=");
    reveal_strlit("\nType=oneshot\n");
    reveal_strlit("\nWantedBy=multi-user.target\n");
    reveal_strlit("\n");
    let n = head.len() as int;
    assert(head.skip(n - 11) =~= "\nExecStart="@);
    assert(head =~= head.take(n - 11) + "\nExecStart="@);
    assert(tail =~= "\n"@ + tail.skip(1));
    lemma_occurs(head.take(n - 11), "\nExecStart="@ + exec + "\n"@, tail.skip(1), text);
    assert(head.subrange(n - 24, n - 10) =~= "\nType=oneshot\n"@);
    assert(head =~= head.take(n - 24) + "\nType=oneshot\n"@ + head.skip(n - 10));
    lemma_occurs(head.take(n - 24), "\nType=oneshot\n"@, head.skip(n - 10) + exec + tail, text);
    let m = tail.len() as int;
    assert(tail.skip(m - 28) =~= "\nWantedBy=multi-user.target\n"@);
    assert(tail =~= tail.take(m - 28) + "\nWantedBy=multi-user.target\n"@);
    lemma_occurs(
        head + exec + tail.take(m - 28),
        "\nWantedBy=multi-user.target\n"@,
        Seq::empty(),
        text,
    );
}

/// The periodic service runs its command once, and its timer runs it at the
/// given times, making up for one that was missed.
pub proof fn law_periodic_units(exec: Seq<char>, calendar: Seq<char>)
    ensures
        occurs("\nExecStart="@ + exec + "\n"@, periodic_service_text(exec)),
        occurs("\nType=oneshot\n"@, periodic_service_text(exec)),
        occurs("\nOnCalendar="@ + calendar + "\n"@, periodic_timer_text(calendar)),
        occurs("\nPersistent=true\n"@, periodic_timer_text(calendar)),
        occurs("\nWantedBy=timers.target\n"@, periodic_timer_text(calendar)),
{
    let text = periodic_service_text(exec);
    let head =
        "[Unit]\nDescription=Revenant periodic snapshot\n\n[Service]\nType=oneshot\nExecStart="@;
    reveal_strlit(
        "[Unit]\nDescription=Revenant periodic snapshot\n\n[Service]\nType=oneshot\nExecStart=",
    );
    reveal_strlit("\nExecStart=");
    reveal_strlit("\nType=oneshot\n");
    reveal_strlit("\n");
    let n = head.len() as int;
    assert(head.skip(n - 11) =~= "\nExecStart="@);
    assert(head =~= head.take(n - 11) + "\nExecStart="@);
    lemma_occurs(head.take(n - 11), "\nExecStart="@ + exec + "\n"@, Seq::empty(), text);
    assert(head.subrange(n - 24, n - 10) =~= "\nType=oneshot\n"@);
    assert(head =~= head.take(n - 24) + "\nType=oneshot\n"@ + head.skip(n - 10));
    lemma_occurs(head.take(n - 24), "\nType=oneshot\n"@, head.skip(n - 10) + exec + "\n"@, text);
    lemma_timer(calendar);
}

proof fn lemma_timer(calendar: Seq<char>)
    ensures
        occurs("\nOnCalendar="@ + calendar + "\n"@, periodic_timer_text(calendar)),
        occurs("\nPersistent=true\n"@, periodic_timer_text(calendar)),
        occurs("\nWantedBy=timers.target\n"@, periodic_timer_text(calendar)),
{
    let text = periodic_timer_text(calendar);
    let head = "[Unit]\nDescription=Revenant periodic snapshot timer\n\n[Timer]\nOnCalendar="@;
    let tail = "\nPersistent=true\n\n[Install]\nWantedBy=timers.target\n"@;
    reveal_strlit("[Unit]\nDescription=Revenant periodic snapshot timer\n\n[Timer]\nOnCalendar=");
    reveal_strlit("\nPersistent=true\n\n[Install]\nWantedBy=timers.target\n");
    reveal_strlit("\nOnCalendar=");
    reveal_strlit("\nPersistent=true\n");
    reveal_strlit("\nWantedBy=timers.target\n");
    reveal_strlit("\n");
    let n = head.len() as int;
    let m = tail.len() as int;
    assert(head.skip(n - 12) =~= "\nOnCalendar="@);
    assert(head =~= head.take(n - 12) + "\nOnCalendar="@);
    assert(tail =~= "\n"@ + tail.skip(1));
    lemma_occurs(head.take(n - 12), "\nOnCalendar="@ + calendar + "\n"@, tail.skip(1), text);
    assert(tail.take(17) =~= "\nPersistent=true\n"@);
    assert(tail =~= "\nPersistent=true\n"@ + tail.skip(17));
    lemma_occurs(head + calendar, "\nPersistent=true\n"@, tail.skip(17), text);
    assert(tail.skip(m - 24) =~= "\nWantedBy=timers.target\n"@);
    assert(tail =~= tail.take(m - 24) + "\nWantedBy=timers.target\n"@);
    lemma_occurs(
        head + calendar + tail.take(m - 24),
        "\nWantedBy=timers.target\n"@,
        Seq::empty(),
        text,
    );
}

/// The pacman hook runs before each install, upgrade and removal of a package,
/// hands over the packages, takes a snapshot of the given strain, and does not
/// stop the transaction if that fails.
pub proof fn law_pacman_hook(bin: Seq<char>, config: Seq<char>, strain: Seq<char>)
    ensures
        ({
            let exec = hook_exec(bin, config, strain);
            let text = hook_content(exec);
            &&& occurs(
                bin + " --config "@ + config + " snapshot "@ + strain
                    + " --trigger pacman --from-stdin || true"@,
                exec,
            )
            &&& occurs("\nExec = "@ + exec + "\n"@, text)
            &&& occurs("\nOperation = Install\n"@, text)
            &&& occurs("\nOperation = Upgrade\n"@, text)
            &&& occurs("\nOperation = Remove\n"@, text)
            &&& occurs("\nWhen = PreTransaction\n"@, text)
            &&& occurs("\nNeedsTargets\n"@, text)
        }),
{
    let exec = hook_exec(bin, config, strain);
    let text = hook_content(exec);
    reveal_strlit(" --trigger pacman --from-stdin || true'");
    reveal_strlit(" --trigger pacman --from-stdin || true");
    let end = " --trigger pacman --from-stdin || true'"@;
    let k = end.len() as int;
    assert(end =~= " --trigger pacman --from-stdin || true"@ + end.skip(k - 1));
    lemma_occurs(
        "/bin/sh -c '"@,
        bin + " --config "@ + config + " snapshot "@ + strain
            + " --trigger pacman --from-stdin || true"@,
        end.skip(k - 1),
        exec,
    );
    let head =
        "[Trigger]\nOperation = Install\nOperation = Upgrade\nOperation = Remove\nType = Package\nTarget = *\n\n[Action]\nDescription = Revenant pre-transaction snapshot\nWhen = PreTransaction\nExec = "@;
    let tail = "\nDepends = coreutils\nNeedsTargets\n"@;
    reveal_strlit(
        "[Trigger]\nOperation = Install\nOperation = Upgrade\nOperation = Remove\nType = Package\nTarget = *\n\n[Action]\nDescription = Revenant pre-transaction snapshot\nWhen = PreTransaction\nExec = ",
    );
    reveal_strlit("\nDepends = coreutils\nNeedsTargets\n");
    reveal_strlit("\nExec = ");
    reveal_strlit("\nOperation = Install\n");
    reveal_strlit("\nOperation = Upgrade\n");
    reveal_strlit("\nOperation = Remove\n");
    reveal_strlit("\nWhen = PreTransaction\n");
    reveal_strlit("\nNeedsTargets\n");
    reveal_strlit("\n");
    let n = head.len() as int;
    let m = tail.len() as int;
    assert(head.skip(n - 8) =~= "\nExec = "@);
    assert(head =~= head.take(n - 8) + "\nExec = "@);
    assert(tail =~= "\n"@ + tail.skip(1));
    lemma_occurs(head.take(n - 8), "\nExec = "@ + exec + "\n"@, tail.skip(1), text);
    lemma_inside(head, 9, "\nOperation = Install\n"@, exec + tail, text);
    lemma_inside(head, 29, "\nOperation = Upgrade\n"@, exec + tail, text);
    lemma_inside(head, 49, "\nOperation = Remove\n"@, exec + tail, text);
    lemma_inside(head, n - 30, "\nWhen = PreTransaction\n"@, exec + tail, text);
    assert(tail.skip(m - 14) =~= "\nNeedsTargets\n"@);
    assert(tail =~= tail.take(m - 14) + "\nNeedsTargets\n"@);
    lemma_occurs(head + exec + tail.take(m - 14), "\nNeedsTargets\n"@, Seq::empty(), text);
}

proof fn lemma_inside(head: Seq<char>, i: int, part: Seq<char>, rest: Seq<char>, text: Seq<char>)
    requires
        0 <= i,
        i + part.len() <= head.len(),
        forall|k: int| 0 <= k < part.len() ==> head[i + k] == #[trigger] part[k],
        text =~= head + rest,
    ensures
        occurs(part, text),
{
    let j = i + part.len();
    assert(head.subrange(i, j) =~= part);
    assert(head =~= head.take(i) + part + head.skip(j));
    lemma_occurs(head.take(i), part, head.skip(j) + rest, text);
}

proof fn lemma_names()
    ensures
        is_component("revenant-boot.service"@),
        is_component("revenant-periodic.service"@),
        is_component("revenant-periodic.timer"@),
        is_component("50-revenant-snapshot.hook"@),
        "revenant-boot.service"@.len() == 21,
        "revenant-periodic.service"@.len() == 25,
        "revenant-periodic.timer"@.len() == 23,
        "50-revenant-snapshot.hook"@.len() == 25,
        "50-revenant-snapshot.hook"@[0] == '5',
        "revenant-periodic.service"@[0] == 'r',
{
    reveal_strlit("revenant-boot.service");
    reveal_strlit("revenant-periodic.service");
    reveal_strlit("revenant-periodic.timer");
    reveal_strlit("50-revenant-snapshot.hook");
    reveal_strlit(".");
    assert("."@.len() == 1);
    assert("50-revenant-snapshot.hook"@.len() == 25);
}

/// With the systemd hook, `init` leaves the boot service, the periodic service
/// and its timer in the unit directory, for the strains and at the times given;
/// with the pacman hook, the hook in the hook directory. No subvolume and no
/// other file is touched.
pub proof fn law_hook_files(st: FsState, args: InitArgs)
    ensures
        ({
            let b = hooked(st, args);
            let units = path_of(args.systemd_dir@);
            let hooks = path_of(args.pacman_dir@);
            let boot = units.push("revenant-boot.service"@);
            let service = units.push("revenant-periodic.service"@);
            let timer = units.push("revenant-periodic.timer"@);
            let hook = hooks.push("50-revenant-snapshot.hook"@);
            &&& b.subvols == st.subvols
            &&& args.systemd ==> b.files.contains_key(boot) && b.files[boot] == boot_service_text(
                exec_line(args.bin_path@, args.output_path@, args.boot_strain@, "systemd-boot"@),
            )
            &&& args.systemd ==> b.files.contains_key(service) && b.files[service]
                == periodic_service_text(
                exec_line(
                    args.bin_path@,
                    args.output_path@,
                    args.periodic_strain@,
                    "systemd-periodic"@,
                ),
            )
            &&& args.systemd ==> b.files.contains_key(timer) && b.files[timer]
                == periodic_timer_text(args.timer_interval@)
            &&& args.pacman ==> b.files.contains_key(hook) && b.files[hook] == hook_content(
                hook_exec(args.bin_path@, args.output_path@, args.pacman_strain@),
            )
            &&& forall|p: PathView|
                !(args.systemd && (p == boot || p == service || p == timer)) && !(args.pacman && p
                    == hook) ==> (#[trigger] b.files.contains_key(p) == st.files.contains_key(p))
                    && (st.files.contains_key(p) ==> b.files[p] == st.files[p])
        }),
{
    lemma_names();
    let units = path_of(args.systemd_dir@);
    let hooks = path_of(args.pacman_dir@);
    let (a, b, c) = (
        "revenant-boot.service"@,
        "revenant-periodic.service"@,
        "revenant-periodic.timer"@,
    );
    let d = "50-revenant-snapshot.hook"@;
    lemma_join_component(units, a);
    lemma_join_component(units, b);
    lemma_join_component(units, c);
    lemma_join_component(hooks, d);
    assert(units.push(a).last() == a && units.push(b).last() == b && units.push(c).last() == c);
    assert(hooks.push(d).last() == d);
    let f = unit_views(args);
    let g = hook_views(args);
    reveal_with_fuel(installed, 4);
    assert(f.len() == 3 && g.len() == 1);
}

/// What is detected is what is shown: the subvolume, and where EFI was found or
/// that it was not.
pub proof fn law_detection_is_shown(d: DetectedConfig)
    ensures
        task_lines(detected_task(d)).contains("  Rootfs subvol: "@ + d.rootfs_subvol@),
        task_lines(detected_task(d)).contains("  Device UUID: "@ + d.device_uuid@),
        d.efi matches Some(e) ==> task_lines(detected_task(d)).contains(
            "  EFI mount: "@ + e.mount_point@,
        ),
        d.efi is None ==> task_lines(detected_task(d)).contains("  EFI: not detected"@),
{
    let v = task_lines(detected_task(d));
    assert(v[2] == "  Device UUID: "@ + d.device_uuid@);
    assert(v[3] == "  Rootfs subvol: "@ + d.rootfs_subvol@);
    assert(v[5] == match d.efi {
        Some(e) => "  EFI mount: "@ + e.mount_point@,
        None => "  EFI: not detected"@,
    });
}

/// The rollback entry of a snapshot is a file of its own among the loader's
/// entries, shows the snapshot's ID, and boots the given subvolume.
pub proof fn law_rollback_entry(esp: PathView, id: Seq<char>, subvol: Seq<char>)
    ensures
        occurs("("@ + id + ")"@, rollback_text(id, subvol)),
        occurs("rootflags=subvol="@ + subvol + " rw\n"@, rollback_text(id, subvol)),
        rollback_path(esp, id) == path_join(
            path_join(path_join(esp, "loader"@), "entries"@),
            "revenant-rollback-"@ + id + ".conf"@,
        ),
{
    let text = rollback_text(id, subvol);
    let head = "title   Revenant Rollback ("@;
    let mid =
        ")\nlinux   /vmlinuz-linux\ninitrd  /initramfs-linux.img\noptions rootflags=subvol="@;
    reveal_strlit("title   Revenant Rollback (");
    reveal_strlit(
        ")\nlinux   /vmlinuz-linux\ninitrd  /initramfs-linux.img\noptions rootflags=subvol=",
    );
    reveal_strlit("(");
    reveal_strlit(")");
    reveal_strlit("rootflags=subvol=");
    let n = head.len() as int;
    let m = mid.len() as int;
    assert(head =~= head.take(n - 1) + "("@);
    assert(mid =~= ")"@ + mid.skip(1));
    lemma_occurs(head.take(n - 1), "("@ + id + ")"@, mid.skip(1) + subvol + " rw\n"@, text);
    assert(mid =~= mid.take(m - 17) + "rootflags=subvol="@);
    lemma_occurs(
        head + id + mid.take(m - 17),
        "rootflags=subvol="@ + subvol + " rw\n"@,
        Seq::empty(),
        text,
    );
}

proof fn lemma_cat<T>(a: Seq<T>, b: Seq<T>, t: T)
    ensures
        (a + b).contains(t) <==> a.contains(t) || b.contains(t),
{
    if (a + b).contains(t) {
        let i = choose|i: int| 0 <= i < (a + b).len() && (a + b)[i] == t;
        if i < a.len() {
            assert(a[i] == t);
        } else {
            assert(b[i - a.len()] == t);
        }
    }
    if a.contains(t) {
        let i = choose|i: int| 0 <= i < a.len() && a[i] == t;
        assert((a + b)[i] == t);
    }
    if b.contains(t) {
        let i = choose|i: int| 0 <= i < b.len() && b[i] == t;
        assert((a + b)[a.len() + i] == t);
    }
}

proof fn lemma_extension_tasks(c: ConfigView, args: InitArgs, t: TaskView)
    requires
        extension_tasks(c, args).contains(t),
    ensures
        t is AddedSystemdStrains || t is AddedPkgmgrStrain,
{
}

proof fn lemma_config_tasks(c: ConfigView, d: DetectedConfig, args: InitArgs, t: TaskView)
    ensures
        extend_tasks(c, args).contains(t) <==> extension_tasks(c, args).contains(t) || (
        extension_tasks(c, args).len() > 0 && t == (TaskView::WroteConfig {
            path: args.output_path@,
            created: false,
        })),
        fresh_tasks(d, args).contains(t) <==> t == detected_task(d) || extension_tasks(
            crate::init::built_config(d),
            args,
        ).contains(t) || t == (TaskView::WroteConfig { path: args.output_path@, created: true }),
{
    let added = extension_tasks(c, args);
    let change = TaskView::WroteConfig { path: args.output_path@, created: false };
    lemma_cat(added, seq![change], t);
    assert(seq![change][0] == change);
    let (first, last) = (
        detected_task(d),
        TaskView::WroteConfig { path: args.output_path@, created: true },
    );
    let more = extension_tasks(crate::init::built_config(d), args);
    lemma_cat(seq![first] + more, seq![last], t);
    lemma_cat(seq![first], more, t);
    assert(seq![first][0] == first && seq![last][0] == last);
}

/// `init` tells that it created the configuration, and what it detected,
/// exactly if there was none; that it changed one exactly if there was one and
/// a strain had to be added; and it tells of the units and of the hook exactly
/// if it was to set them up.
pub proof fn law_init_reports(st: FsState, args: InitArgs, d: DetectedConfig, t: TaskView)
    ensures
        ({
            let there = st.files.contains_key(path_of(args.output_path@));
            let told = init_tasks(st, args, d).contains(t);
            &&& t == (TaskView::WroteConfig { path: args.output_path@, created: true }) ==> (told
                <==> !there)
            &&& t == (TaskView::WroteConfig { path: args.output_path@, created: false }) ==> (told
                <==> there && extension_tasks(base_config(st, args, d), args).len() > 0)
            &&& t == detected_task(d) ==> (told <==> !there)
            &&& told && t is WroteSystemdUnit ==> args.systemd
            &&& told && t is WrotePkgmgrHook ==> args.pacman
        }),
        args.systemd ==> exists|u: TaskView| #[trigger]
            init_tasks(st, args, d).contains(u) && u is WroteSystemdUnit,
        args.pacman ==> exists|u: TaskView| #[trigger]
            init_tasks(st, args, d).contains(u) && u is WrotePkgmgrHook,
{
    let c = base_config(st, args, d);
    let s1 = configured(st, args, d);
    let s2 = hooked(s1, (InitArgs { pacman: false, ..args }));
    let there = st.files.contains_key(path_of(args.output_path@));
    let head = if there {
        extend_tasks(c, args)
    } else {
        fresh_tasks(d, args)
    };
    let units = if args.systemd {
        unit_tasks(s1, args)
    } else {
        Seq::empty()
    };
    let hooks = if args.pacman {
        hook_tasks(s2, args)
    } else {
        Seq::empty()
    };
    assert(init_tasks(st, args, d) == head + units + hooks);
    lemma_cat(head + units, hooks, t);
    lemma_cat(head, units, t);
    lemma_config_tasks(c, d, args, t);
    if extension_tasks(c, args).contains(t) {
        lemma_extension_tasks(c, args, t);
    }
    if extension_tasks(crate::init::built_config(d), args).contains(t) {
        lemma_extension_tasks(crate::init::built_config(d), args, t);
    }
    if units.contains(t) {
        let i = choose|i: int| 0 <= i < units.len() && units[i] == t;
        assert(units[i] is WroteSystemdUnit);
    }
    if hooks.contains(t) {
        let i = choose|i: int| 0 <= i < hooks.len() && hooks[i] == t;
        assert(hooks[i] is WrotePkgmgrHook);
    }
    if args.systemd {
        let u = units[0];
        assert(units.contains(u));
        lemma_cat(head + units, hooks, u);
        lemma_cat(head, units, u);
        assert(init_tasks(st, args, d).contains(u));
    }
    if args.pacman {
        let u = hooks[0];
        assert(hooks.contains(u));
        lemma_cat(head + units, hooks, u);
        assert(init_tasks(st, args, d).contains(u));
    }
}

/// What `init` tells of a unit or a hook is what was there before it: a file
/// that was missing is written, one with other content is overwritten, and one
/// that was the same is unchanged.
pub proof fn law_reported_status(
    st: FsState,
    dir: PathView,
    files: Seq<(Seq<char>, Seq<char>)>,
    i: int,
)
    requires
        0 <= i < files.len(),
        forall|j: int|
            0 <= j < i ==> path_join(dir, (#[trigger] files[j]).0) != path_join(dir, files[i].0),
    ensures
        ({
            let p = path_join(dir, files[i].0);
            let told = nth_status(st, dir, files, i);
            &&& told == FileStatus::Written <==> !st.files.contains_key(p)
            &&& told == FileStatus::Unchanged <==> st.files.contains_key(p) && st.files[p]
                == files[i].1
            &&& told == FileStatus::Overwritten <==> st.files.contains_key(p) && st.files[p]
                != files[i].1
            &&& in_the_way(st, dir, files, i) <==> st.files.contains_key(p) && st.files[p]
                != files[i].1
        }),
{
    lemma_before(st, dir, files, i as nat, path_join(dir, files[i].0));
}

proof fn lemma_before(
    st: FsState,
    dir: PathView,
    files: Seq<(Seq<char>, Seq<char>)>,
    k: nat,
    p: PathView,
)
    requires
        k <= files.len(),
        forall|j: int| 0 <= j < k ==> path_join(dir, (#[trigger] files[j]).0) != p,
    ensures
        installed(st, dir, files, k).files.contains_key(p) <==> st.files.contains_key(p),
        installed(st, dir, files, k).files[p] == st.files[p],
    decreases k,
{
    if k > 0 {
        lemma_before(st, dir, files, (k - 1) as nat, p);
        assert(path_join(dir, files[k - 1].0) != p);
    }
}

/// A status is told by its name, and a file with its status.
pub proof fn law_status_names(name: Seq<char>, s: FileStatus)
    ensures
        s == FileStatus::Written ==> status_name(s) == "written"@,
        s == FileStatus::Unchanged ==> status_name(s) == "unchanged"@,
        s == FileStatus::Overwritten ==> status_name(s) == "overwritten"@,
        s == FileStatus::Unchanged ==> file_line(name, s) == "  "@ + name + " (unchanged)"@,
        s != FileStatus::Unchanged ==> file_line(name, s) == "  "@ + name,
{
}

/// A strain that was added is told by its name, and the text of a configuration
/// is its document below a comment.
pub proof fn law_told_strains(v: Seq<Seq<char>>, i: int, c: ConfigView)
    requires
        0 <= i < v.len(),
    ensures
        added_lines(v).len() == v.len(),
        added_lines(v)[i] == "Added missing strain '"@ + v[i] + "'"@,
        crate::document::toml_text(crate::init::encode_config(c))->Ok_0.is_suffix_of(
            config_text(c),
        ),
        crate::init::CONFIG_HEADER@.is_prefix_of(config_text(c)),
{
    let text = crate::document::toml_text(crate::init::encode_config(c))->Ok_0;
    let all = config_text(c);
    assert(text =~= all.subrange(all.len() - text.len(), all.len() as int));
    assert(crate::init::CONFIG_HEADER@ =~= all.subrange(
        0,
        crate::init::CONFIG_HEADER@.len() as int,
    ));
}

/// Where there was no configuration, the one that was detected is written, with
/// the strains for the hooks; where there was one that lacks a strain, it is
/// written with that strain.
pub proof fn law_config_is_written(st: FsState, args: InitArgs, d: DetectedConfig)
    ensures
        ({
            let p = path_of(args.output_path@);
            let b = configured(st, args, d);
            &&& !st.files.contains_key(p) ==> b.files.contains_key(p) && b.files[p] == config_text(
                extended(crate::init::built_config(d), args),
            )
            &&& st.files.contains_key(p) && extension_tasks(base_config(st, args, d), args).len()
                > 0 ==> b.files[p] == config_text(extended(base_config(st, args, d), args))
            &&& st.files.contains_key(p) ==> base_config(st, args, d)
                == crate::config::decode_config(
                crate::document::toml_document(st.files[p])->Ok_0,
            )->0
        }),
{
}

/// Whether the file at `p` is there with something else in it.
pub open spec fn differs(st: FsState, p: PathView, content: Seq<char>) -> bool {
    st.files.contains_key(p) && st.files[p] != content
}

/// Unless it is forced, `init` overwrites no file: it is in the way if a unit or
/// the hook that it is to write is there with other content.
pub proof fn law_init_overwrites_nothing(st: FsState, args: InitArgs)
    ensures
        ({
            let units = path_of(args.systemd_dir@);
            let hook = path_of(args.pacman_dir@).push("50-revenant-snapshot.hook"@);
            unobstructed(st, args) <==> args.force || (!(args.systemd && (differs(
                st,
                units.push("revenant-boot.service"@),
                boot_service_text(
                    exec_line(
                        args.bin_path@,
                        args.output_path@,
                        args.boot_strain@,
                        "systemd-boot"@,
                    ),
                ),
            ) || differs(
                st,
                units.push("revenant-periodic.service"@),
                periodic_service_text(
                    exec_line(
                        args.bin_path@,
                        args.output_path@,
                        args.periodic_strain@,
                        "systemd-periodic"@,
                    ),
                ),
            ) || differs(
                st,
                units.push("revenant-periodic.timer"@),
                periodic_timer_text(args.timer_interval@),
            ))) && !(args.pacman && differs(
                st,
                hook,
                hook_content(hook_exec(args.bin_path@, args.output_path@, args.pacman_strain@)),
            )))
        }),
{
    lemma_names();
    let units = path_of(args.systemd_dir@);
    let hooks = path_of(args.pacman_dir@);
    let (a, b, c) = (
        "revenant-boot.service"@,
        "revenant-periodic.service"@,
        "revenant-periodic.timer"@,
    );
    let d = "50-revenant-snapshot.hook"@;
    lemma_join_component(units, a);
    lemma_join_component(units, b);
    lemma_join_component(units, c);
    lemma_join_component(hooks, d);
    assert(units.push(a).last() == a && units.push(b).last() == b && units.push(c).last() == c);
    assert(hooks.push(d).last() == d);
    let (f, g) = (unit_views(args), hook_views(args));
    assert(f.len() == 3 && g.len() == 1);
    assert(f[0].0 == a && f[1].0 == b && f[2].0 == c && g[0].0 == d);
    law_reported_status(st, units, f, 0);
    law_reported_status(st, units, f, 1);
    law_reported_status(st, units, f, 2);
    let only = InitArgs { pacman: false, ..args };
    let s2 = hooked(st, only);
    law_hook_files(st, only);
    law_reported_status(s2, hooks, g, 0);
    let p = hooks.push(d);
    assert(p != units.push(a) && p != units.push(b) && p != units.push(c));
    assert(s2.files.contains_key(p) == st.files.contains_key(p));
    if forall|i: int| 0 <= i < 3 ==> !#[trigger] in_the_way(st, units, f, i) {
        assert(!in_the_way(st, units, f, 0));
        assert(!in_the_way(st, units, f, 1));
        assert(!in_the_way(st, units, f, 2));
    }
}

} // verus!
