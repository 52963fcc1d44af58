//! What the process commands report to the user interface.
use vstd::prelude::*;

verus! {

/// Information about running Codex processes.
#[derive(Debug, Clone)]
pub struct CodexProcessInfo {
    /// Number of active Codex app instances.
    pub count: usize,
    /// Number of ignored background/stale Codex-related processes.
    pub background_count: usize,
    /// Whether switching is allowed (no active Codex app instances).
    pub can_switch: bool,
    /// Process IDs of active Codex app instances.
    pub pids: Vec<u32>,
}

impl CodexProcessInfo {
    /// The count is the number of listed pids, and switching is allowed exactly when
    /// there is none.
    pub open spec fn wf(&self) -> bool {
        &&& self.count == self.pids@.len()
        &&& self.can_switch == (self.count == 0)
    }
}

/// Summary of a force-close operation for active Codex processes.
#[derive(Debug, Clone)]
pub struct KillCodexProcessesResult {
    /// Number of active Codex sessions targeted before expanding child processes.
    pub targeted_count: usize,
    /// Process IDs that were successfully signalled for termination.
    pub killed_pids: Vec<u32>,
    /// Process IDs that could not be terminated.
    pub failed_pids: Vec<u32>,
}

/// The report for the active session pids and the number of background processes.
pub fn codex_process_info(pids: Vec<u32>, background_count: usize) -> (info: CodexProcessInfo)
    ensures
        info.wf(),
        info.pids@ == pids@,
        info.background_count == background_count,
{
    let count = pids.len();
    CodexProcessInfo { count, background_count, can_switch: count == 0, pids }
}

} // verus!
