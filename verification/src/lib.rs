//! Decision logic of the Codex account switcher, verified with Verus.
//!
//! - `ps_scan`, `windows`: which running processes are active Codex sessions;
//! - `snapshot`, `kill`, `kill_session`: which processes to force-close and how the
//!   outcome is reported;
//! - `process_info`: what the process commands report;
//! - `tray`, `app_menu`: menu entries, item ids and what a click on them does;
//! - `text`, `pid_set`: character and process-id list utilities.
use vstd::prelude::*;

pub mod app_menu;
pub mod kill;
pub mod kill_session;
pub mod pid_set;
pub mod process_info;
pub mod ps_scan;
pub mod snapshot;
pub mod text;
pub mod tray;
pub mod windows;

verus! {
}
