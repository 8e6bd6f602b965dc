# revenant

Snapshots of btrfs subvolumes in named strains, with retention policies,
restore by swapping subvolumes, and a daemon that serves both over D-Bus.

The library under `src/` is written in Verus: what its functions do is stated
in their contracts and proved. The filesystem is a trait,
`backend::FileSystemBackend`, whose contract speaks of a state of subvolumes
and files; `backend::mock::MockBackend` is an implementation in memory that is
proved to keep it. A backend that is `reliable` does what it is asked wherever
that can be done; the contracts that promise success hold for such a one.

- `snapshot`, `metadata`, `restore`, `retention`, `cleanup`: snapshots, their
  sidecar files, and their life
- `config`, `init`, `document`, `layout`: the configuration, how it is read,
  written and detected, and which layouts everything works on
- `efi`, `bootloader`, `systemd`, `pkgmgr`: mirroring of the EFI partition and
  the files that hook the program into a system
- `check`, `preflight`, `cli`: the checks and the commands
- `daemon`: what the daemon answers, its mounts and its watcher
- `clock`, `path`, `text`, `lines`, `assoc`, `error`: what the rest builds on

Calls into `chrono`, `toml`, `toml_edit` and `uuid` stand behind small
functions in `clock`, `document`, `daemon::config_edit` and `backend::mock`,
whose contracts say what is taken from those crates.

`app/` holds the program: arguments, output, ioctls, mounts and the bus.
`tests/` runs the library.
