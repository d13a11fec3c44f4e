# wireguard_gui

The core of a WireGuard desktop console for Linux, verified with Verus: it reads and
writes wg-quick configuration files, parses `wg show all dump`, validates every name
and path that reaches a privileged command, and decides what each change achieved on
disk and on the running interface.

## Layout

- `src/text.rs` — character-level primitives (trimming, splitting, lines, decimals,
  string order) with the specifications they are proved against.
- `src/conf.rs` — the wg-quick configuration format: `parse_conf`, `serialize_conf`,
  `serialize_peers_for_setconf`.
- `src/roundtrip.rs` — laws of the format: what is written reads back unchanged,
  everything that is read can be written, and the `wg setconf` text holds only Peers.
- `src/dump.rs` — `parse_dump` for the tab-separated `wg show all dump` output.
- `src/host.rs` — the Linux host adapter: the exact invocation (program, arguments,
  standard input) of every program it runs, the order of the runs for each interface
  action, and what their output means. Running processes and touching the file system
  is the job of a `CommandRunner`; the contracts state the exact invocation handed to it
  and derive each result from the runner's answer to that invocation.
- `src/elevate.rs` — privileged `wg`, `wg-quick` and file operations through pkexec.
- `src/ops.rs` — the WireGuard module: name and export-path validation, configuration
  listing, interface status, applying configurations and Peers, and their outcomes.
- `src/settings.rs` — application settings, the silent-start switch and the XDG
  autostart entry.
- `app/` — the Tauri shell around the library: IPC commands, the process runner,
  settings on disk.
- `tests/` — tests of the library against concrete inputs.
