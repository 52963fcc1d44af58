# codex_switcher

The decision logic of the Codex account switcher desktop app, written in Verus and
proved against its contracts:

- `src/ps_scan.rs`: which lines of `ps -axo pid=,tty=,command=` are active Codex
  sessions, which are background processes, and which are ignored;
- `src/windows.rs`: the same decision on Windows, over the `Codex.exe` processes with
  their parent pids, command lines and window titles;
- `src/snapshot.rs`: the process tree read from `ps -axo pid=,ppid=,uid=`, and the
  processes to close for a set of sessions (their descendants, then the sessions);
- `src/kill.rs`, `src/kill_session.rs`: force-closing the sessions as a step function
  from the current state and the outcome of the last request to the next request,
  including the administrator path for processes of other users on macOS;
- `src/process_info.rs`: the reports handed to the user interface;
- `src/tray.rs`, `src/app_menu.rs`: menu entries, item ids and what a click does;
- `src/text.rs`, `src/pid_set.rs`: characters, words, numbers and sorted pid lists.

`app/` holds the Tauri commands, the tray icon and the application menu: it runs the
external tools, performs each request of the force-close session, and builds the native
menus from the entries that the library computes. `tests/` runs the library on concrete
inputs.
