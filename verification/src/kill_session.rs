//! Force-closing the active Codex sessions, as a sequence of requests to the caller:
//! the caller performs each request (listing processes, signalling one, running the
//! administrator script, ...) and reports the outcome back as the next event.
use vstd::prelude::*;

use crate::kill::{
    admin_kill_script, admin_retry_targets, admin_script_text, direct_kill_report_consistent,
    kill_report_consistent, plan_kill,
    record_kill_outcomes, settle_admin_kill, targets_where, with_outcome, KillPlan,
};
use crate::pid_set::{copy_pids, first_occurrences_outside, strictly_increasing};
use crate::process_info::KillCodexProcessesResult;
use crate::snapshot::{descendant_order, descendants, expand_process_targets, UnixProcessSnapshot};

verus! {

/// Where the force-close stands.
pub enum KillPhase {
    Start,
    FindingProcesses,
    ReadingProcessTree,
    Signalling,
    Escalating,
    CheckingSurvivors,
    Done,
}

/// What the caller reports back.
pub enum KillEvent {
    /// Start the force-close.
    Begin,
    /// The active Codex sessions (as the scan gives them: each pid once), or why they
    /// could not be listed.
    ProcessesFound(Result<Vec<u32>, String>),
    /// The process tree (when it could be read) and the current uid (when asked for and known).
    ProcessTreeRead(Option<UnixProcessSnapshot>, Option<u32>),
    /// Whether the kill command for the last requested process exited with success (the
    /// report lists as killed only processes successfully signalled for termination).
    Signalled(bool),
    /// Whether the administrator script ran successfully.
    Escalated(bool),
    /// Whether the last requested process still exists.
    StillRunning(bool),
}

/// What the caller is asked to do next.
pub enum KillAction {
    /// List the active Codex sessions.
    FindProcesses,
    /// Read the process tree, and the current uid when the flag is set.
    ReadProcessTree(bool),
    /// Force-close this process and report whether the kill command succeeded.
    ForceKill(u32),
    /// Run this AppleScript with administrator rights.
    RunAdminScript(String),
    /// Report whether this process still exists.
    CheckRunning(u32),
    /// The force-close is over, with this report.
    Finish(Result<KillCodexProcessesResult, String>),
    /// The event does not belong to the current phase; nothing changed.
    Unexpected,
}

/// A force-close in progress.
pub struct KillSession {
    /// The platform has `ps` and process trees.
    pub unix: bool,
    /// Processes of other users go to the administrator path (macOS).
    pub escalate_foreign: bool,
    pub phase: KillPhase,
    pub error: Option<String>,
    pub pids: Vec<u32>,
    pub targeted_count: usize,
    pub snapshot: Option<UnixProcessSnapshot>,
    pub current_uid: Option<u32>,
    pub targets: Vec<u32>,
    pub plan: KillPlan,
    pub signalled: Vec<bool>,
    pub killed: Vec<u32>,
    pub failed: Vec<u32>,
    pub admin_targets: Vec<u32>,
    pub admin_succeeded: bool,
    pub still_running: Vec<bool>,
    pub reported_killed: Vec<u32>,
    pub reported_failed: Vec<u32>,
}

/// The snapshot of a session, by reference.
pub open spec fn snapshot_ref(s: &KillSession) -> Option<&UnixProcessSnapshot> {
    match &s.snapshot {
        Some(snap) => Some(snap),
        None => None,
    }
}

/// The processes to close are the sessions and, where there is a process tree, their
/// descendants in the order of the walk, each once with the sessions last; without a
/// tree, the sessions as found.
pub open spec fn targets_valid(s: KillSession) -> bool {
    if s.unix {
        let d = descendants(snapshot_ref(&s), s.pids@);
        let tail = first_occurrences_outside(s.pids@, d);
        &&& s.targets@ == descendant_order(snapshot_ref(&s), s.pids@) + tail
        &&& s.targets@.no_duplicates()
        &&& s.targets@.to_set() == s.pids@.to_set().union(d)
        &&& tail.len() <= s.targets@.len()
        &&& s.targets@.skip(s.targets@.len() - tail.len()) == tail
        &&& s.targets@.take(s.targets@.len() - tail.len()).to_set() == d
    } else {
        &&& s.targets@ == s.pids@
        &&& s.snapshot is None
        &&& !s.escalate_foreign
    }
}

/// The phase is one after the process tree was read.
pub open spec fn planned(p: KillPhase) -> bool {
    p is Signalling || p is Escalating || p is CheckingSurvivors || p is Done
}

/// The phase is one after every direct signal was reported.
pub open spec fn signalled_all(p: KillPhase) -> bool {
    p is Escalating || p is CheckingSurvivors || p is Done
}

/// Platform flags and the session count are consistent.
pub open spec fn basics_ok(s: KillSession) -> bool {
    &&& s.escalate_foreign ==> s.unix
    &&& !s.unix ==> s.snapshot is None && s.current_uid is None
    &&& s.targeted_count == s.pids@.len()
    &&& s.pids@.no_duplicates()
}

/// The targets and the split into direct and escalated ones follow from the inputs.
pub open spec fn plan_ok(s: KillSession) -> bool {
    &&& targets_valid(s)
    &&& s.plan.direct@ == targets_where(s.targets@, snapshot_ref(&s), s.current_uid, s.escalate_foreign, false)
    &&& s.plan.escalated@ == targets_where(s.targets@, snapshot_ref(&s), s.current_uid, s.escalate_foreign, true)
    &&& s.signalled@.len() <= s.plan.direct@.len()
}

/// Every direct signal is reported, and the killed, failed and administrator lists
/// follow from the reports.
pub open spec fn signals_ok(s: KillSession) -> bool {
    &&& s.signalled@.len() == s.plan.direct@.len()
    &&& s.killed@ == with_outcome(s.plan.direct@, s.signalled@, true)
    &&& s.failed@ == with_outcome(s.plan.direct@, s.signalled@, false)
    &&& s.escalate_foreign ==> strictly_increasing(s.admin_targets@) && s.admin_targets@.to_set()
        == s.plan.escalated@.to_set().union(s.failed@.to_set())
    &&& !s.escalate_foreign ==> s.admin_targets@.len() == 0
    &&& s.still_running@.len() <= s.admin_targets@.len()
}

/// The reported lists: after the administrator attempt, the targets still running failed
/// and, if the attempt succeeded, the others join the killed ones; without that path the
/// lists of the direct signals.
pub open spec fn report_ok(s: KillSession) -> bool {
    &&& s.escalate_foreign ==> {
        &&& s.still_running@.len() == s.admin_targets@.len()
        &&& s.reported_failed@ == with_outcome(s.admin_targets@, s.still_running@, true)
        &&& s.reported_killed@ == if s.admin_succeeded {
            s.killed@ + first_occurrences_outside(
                with_outcome(s.admin_targets@, s.still_running@, false),
                s.killed@.to_set(),
            )
        } else {
            s.killed@
        }
    }
    &&& !s.escalate_foreign ==> {
        &&& s.reported_killed@ == s.killed@
        &&& s.reported_failed@ == s.failed@
    }
}

/// The fields of a session agree with what was reported so far.
pub open spec fn session_wf(s: KillSession) -> bool {
    &&& basics_ok(s)
    &&& (s.phase is Done && s.error is Some) || !(s.error is Some)
    &&& s.phase is ReadingProcessTree ==> s.unix
    &&& planned(s.phase) && s.error is None ==> plan_ok(s)
    &&& s.phase is Signalling ==> s.signalled@.len() < s.plan.direct@.len()
    &&& signalled_all(s.phase) && s.error is None ==> signals_ok(s)
    &&& (s.phase is Escalating || s.phase is CheckingSurvivors) ==> s.escalate_foreign && s.admin_targets@.len() > 0
    &&& s.phase is Escalating ==> s.still_running@.len() == 0
    &&& s.phase is CheckingSurvivors ==> s.still_running@.len() < s.admin_targets@.len()
    &&& s.phase is Done && s.error is None ==> report_ok(s)
}

/// `action` is what the session `s` waits for.
pub open spec fn requested(s: KillSession, action: KillAction) -> bool {
    match s.phase {
        KillPhase::Start => action is Unexpected,
        KillPhase::FindingProcesses => action is FindProcesses,
        KillPhase::ReadingProcessTree => action == KillAction::ReadProcessTree(s.escalate_foreign),
        KillPhase::Signalling => action == KillAction::ForceKill(s.plan.direct@[s.signalled@.len() as int]),
        KillPhase::Escalating => action matches KillAction::RunAdminScript(script) && script@
            == admin_script_text(s.admin_targets@),
        KillPhase::CheckingSurvivors => action == KillAction::CheckRunning(
            s.admin_targets@[s.still_running@.len() as int],
        ),
        KillPhase::Done => match s.error {
            Some(e) => action matches KillAction::Finish(Err(m)) && m@ == e@,
            None => action matches KillAction::Finish(Ok(r)) && r.targeted_count == s.targeted_count
                && r.killed_pids@ == s.reported_killed@ && r.failed_pids@ == s.reported_failed@,
        },
    }
}

/// The event is the one the phase waits for.
pub open spec fn expected(p: KillPhase, e: KillEvent) -> bool {
    match p {
        KillPhase::Start => e is Begin,
        KillPhase::FindingProcesses => e is ProcessesFound,
        KillPhase::ReadingProcessTree => e is ProcessTreeRead,
        KillPhase::Signalling => e is Signalled,
        KillPhase::Escalating => e is Escalated,
        KillPhase::CheckingSurvivors => e is StillRunning,
        KillPhase::Done => false,
    }
}

/// A new force-close. `unix`: the platform lists processes with `ps` and knows process
/// trees; `escalate_foreign`: processes of other users go to the administrator path.
pub fn new_kill_session(unix: bool, escalate_foreign: bool) -> (s: KillSession)
    requires
        escalate_foreign ==> unix,
    ensures
        session_wf(s),
        s.phase is Start,
        s.unix == unix,
        s.escalate_foreign == escalate_foreign,
{
    KillSession {
        unix,
        escalate_foreign,
        phase: KillPhase::Start,
        error: None,
        pids: Vec::new(),
        targeted_count: 0,
        snapshot: None,
        current_uid: None,
        targets: Vec::new(),
        plan: KillPlan { direct: Vec::new(), escalated: Vec::new() },
        signalled: Vec::new(),
        killed: Vec::new(),
        failed: Vec::new(),
        admin_targets: Vec::new(),
        admin_succeeded: false,
        still_running: Vec::new(),
        reported_killed: Vec::new(),
        reported_failed: Vec::new(),
    }
}


/// How far the force-close has come: each phase ranks above the ones before it.
pub open spec fn phase_rank(p: KillPhase) -> nat {
    match p {
        KillPhase::Start => 0,
        KillPhase::FindingProcesses => 1,
        KillPhase::ReadingProcessTree => 2,
        KillPhase::Signalling => 3,
        KillPhase::Escalating => 4,
        KillPhase::CheckingSurvivors => 5,
        KillPhase::Done => 6,
    }
}

/// The requests still due in the current phase: signals, or survivor checks.
pub open spec fn pending(s: KillSession) -> int {
    match s.phase {
        KillPhase::Signalling => s.plan.direct@.len() - s.signalled@.len(),
        KillPhase::CheckingSurvivors => s.admin_targets@.len() - s.still_running@.len(),
        _ => 0,
    }
}

/// A sequence whose set of elements is empty is empty.
proof fn lemma_empty_to_set(v: Seq<u32>)
    requires
        v.to_set() == Set::<u32>::empty(),
    ensures
        v.len() == 0,
{
    if v.len() > 0 {
        assert(v.to_set().contains(v[0]));
    }
}

/// The inputs that later phases build on stay as they were.
pub open spec fn same_inputs(a: KillSession, b: KillSession) -> bool {
    &&& a.unix == b.unix
    &&& a.escalate_foreign == b.escalate_foreign
    &&& a.error == b.error
    &&& a.pids == b.pids
    &&& a.targeted_count == b.targeted_count
    &&& a.snapshot == b.snapshot
    &&& a.current_uid == b.current_uid
    &&& a.targets == b.targets
    &&& a.plan == b.plan
}

/// Reports the final lists.
fn finish_report(s: &mut KillSession) -> (action: KillAction)
    requires
        basics_ok(*old(s)),
        plan_ok(*old(s)),
        signals_ok(*old(s)),
        old(s).error is None,
        old(s).still_running@.len() == old(s).admin_targets@.len(),
    ensures
        session_wf(*final(s)),
        requested(*final(s), action),
        final(s).phase is Done,
        same_inputs(*old(s), *final(s)),
        final(s).signalled == old(s).signalled,
        final(s).admin_succeeded == old(s).admin_succeeded,
        final(s).still_running == old(s).still_running,
        final(s).admin_targets == old(s).admin_targets,
        final(s).killed == old(s).killed,
        final(s).failed == old(s).failed,
{
    if s.escalate_foreign {
        let (k, f) = settle_admin_kill(&s.admin_targets, s.admin_succeeded, &s.still_running, copy_pids(&s.killed));
        s.reported_killed = k;
        s.reported_failed = f;
    } else {
        s.reported_killed = copy_pids(&s.killed);
        s.reported_failed = copy_pids(&s.failed);
    }
    s.phase = KillPhase::Done;
    KillAction::Finish(
        Ok(
            KillCodexProcessesResult {
                targeted_count: s.targeted_count,
                killed_pids: copy_pids(&s.reported_killed),
                failed_pids: copy_pids(&s.reported_failed),
            },
        ),
    )
}

/// Records the direct signals and moves on to the administrator path or the report.
fn finish_signals(s: &mut KillSession) -> (action: KillAction)
    requires
        basics_ok(*old(s)),
        plan_ok(*old(s)),
        old(s).error is None,
        old(s).signalled@.len() == old(s).plan.direct@.len(),
    ensures
        session_wf(*final(s)),
        requested(*final(s), action),
        signalled_all(final(s).phase),
        same_inputs(*old(s), *final(s)),
        final(s).signalled == old(s).signalled,
        final(s).phase is Escalating ==> final(s).still_running@.len() == 0,
        final(s).phase is Escalating || final(s).phase is Done,
        final(s).phase is Done ==> !final(s).escalate_foreign || final(s).admin_targets@.len() == 0,
        old(s).plan.direct@.len() == 0 && old(s).plan.escalated@.len() == 0 ==> final(s).phase is Done
            && final(s).reported_killed@.len() == 0 && final(s).reported_failed@.len() == 0,
{
    let (killed, failed) = record_kill_outcomes(&s.plan.direct, &s.signalled);
    s.killed = killed;
    s.failed = failed;
    s.still_running = Vec::new();
    if s.escalate_foreign {
        s.admin_targets = admin_retry_targets(&s.plan.escalated, &s.failed);
        proof {
            if s.plan.direct@.len() == 0 && s.plan.escalated@.len() == 0 {
                assert(s.failed@.len() == 0);
                assert(s.plan.escalated@.to_set() =~= Set::<u32>::empty());
                assert(s.failed@.to_set() =~= Set::<u32>::empty());
                assert(s.admin_targets@.to_set() =~= Set::<u32>::empty());
                lemma_empty_to_set(s.admin_targets@);
            }
        }
        match admin_kill_script(&s.admin_targets) {
            Some(script) => {
                s.phase = KillPhase::Escalating;
                KillAction::RunAdminScript(script)
            },
            None => {
                s.admin_succeeded = true;
                s.phase = KillPhase::Escalating;
                finish_report(s)
            },
        }
    } else {
        s.admin_targets = Vec::new();
        s.phase = KillPhase::Escalating;
        finish_report(s)
    }
}

/// Asks for the first direct signal, or moves on when there is none.
fn start_signalling(s: &mut KillSession) -> (action: KillAction)
    requires
        old(s).error is None,
        basics_ok(*old(s)),
        plan_ok(*old(s)),
        old(s).signalled@.len() == 0,
    ensures
        session_wf(*final(s)),
        requested(*final(s), action),
        planned(final(s).phase),
        same_inputs(*old(s), *final(s)),
        final(s).signalled == old(s).signalled,
        final(s).phase is Done ==> !final(s).escalate_foreign || final(s).admin_targets@.len() == 0,
        old(s).plan.direct@.len() == 0 && old(s).plan.escalated@.len() == 0 ==> final(s).phase is Done
            && final(s).reported_killed@.len() == 0 && final(s).reported_failed@.len() == 0,
{
    s.phase = KillPhase::Signalling;
    if s.plan.direct.len() > 0 {
        KillAction::ForceKill(s.plan.direct[0])
    } else {
        finish_signals(s)
    }
}

/// One step of force-closing the active Codex sessions: takes what the caller reports
/// and says what to do next. Unix: list sessions, read the process tree (and, when
/// processes of other users are escalated, the current uid), signal each direct target,
/// then run the administrator script on the escalated and failed ones and check which
/// of them survive. Elsewhere the sessions found are signalled as they are.
/// Each expected event moves the session on (a later phase, or fewer requests left in
/// the same one), and only a failed search ends it with an error; so once the sessions
/// were found, the session ends with an `Ok` report. With no session found, that report
/// comes at once, with nothing signalled.
pub fn kill_codex_processes_blocking(session: &mut KillSession, event: KillEvent) -> (action: KillAction)
    requires
        session_wf(*old(session)),
        event matches KillEvent::ProcessesFound(Ok(pids)) ==> pids@.no_duplicates(),
    ensures
        session_wf(*final(session)),
        !expected(old(session).phase, event) ==> *final(session) == *old(session) && action is Unexpected,
        expected(old(session).phase, event) ==> requested(*final(session), action),
        final(session).unix == old(session).unix,
        final(session).escalate_foreign == old(session).escalate_foreign,
        expected(old(session).phase, event) && old(session).error is None && !(event matches KillEvent::ProcessesFound(
            Err(_),
        )) ==> final(session).error is None,
        expected(old(session).phase, event) ==> phase_rank(final(session).phase) > phase_rank(old(session).phase) || (
        final(session).phase == old(session).phase && pending(*final(session)) < pending(*old(session))),
        old(session).phase is Start && event is Begin ==> final(session).phase is FindingProcesses,
        (old(session).phase is FindingProcesses || old(session).phase is ReadingProcessTree
            || old(session).phase is Signalling) && expected(old(session).phase, event)
            && final(session).phase is Done && final(session).error is None
            ==> !final(session).escalate_foreign || final(session).admin_targets@.len() == 0,
        old(session).phase is FindingProcesses ==> (event matches KillEvent::ProcessesFound(Err(e))
            ==> final(session).phase is Done && final(session).error == Some(e)),
        old(session).phase is FindingProcesses ==> (event matches KillEvent::ProcessesFound(Ok(pids))
            ==> final(session).pids == pids && final(session).error is None && (final(session).unix
            ==> final(session).phase is ReadingProcessTree) && (!final(session).unix ==> planned(
            final(session).phase,
        ) && final(session).targets@ == pids@) && (!final(session).unix && pids@.len() == 0
            ==> final(session).phase is Done && final(session).reported_killed@.len() == 0
            && final(session).reported_failed@.len() == 0)),
        old(session).phase is ReadingProcessTree ==> (event matches KillEvent::ProcessTreeRead(
            snapshot,
            uid,
        ) ==> final(session).pids == old(session).pids && final(session).snapshot == snapshot
            && final(session).current_uid == uid && planned(final(session).phase)
            && final(session).signalled@.len() == 0 && final(session).error is None && (old(
            session,
        ).pids@.len() == 0 ==> final(session).phase is Done && final(session).reported_killed@.len() == 0
            && final(session).reported_failed@.len() == 0)),
        old(session).phase is Signalling ==> (event matches KillEvent::Signalled(gone)
            ==> same_inputs(*old(session), *final(session)) && final(session).signalled@ == old(
            session,
        ).signalled@.push(gone) && (final(session).phase is Signalling || signalled_all(
            final(session).phase,
        ))),
        old(session).phase is Escalating ==> (event matches KillEvent::Escalated(ok) ==> same_inputs(
            *old(session),
            *final(session),
        ) && final(session).signalled == old(session).signalled && final(session).admin_targets
            == old(session).admin_targets && final(session).admin_succeeded == ok
            && final(session).still_running == old(session).still_running
            && final(session).phase is CheckingSurvivors),
        old(session).phase is CheckingSurvivors ==> (event matches KillEvent::StillRunning(running)
            ==> same_inputs(*old(session), *final(session)) && final(session).signalled == old(
            session,
        ).signalled && final(session).admin_targets == old(session).admin_targets
            && final(session).admin_succeeded == old(session).admin_succeeded
            && final(session).still_running@ == old(session).still_running@.push(running) && (
        final(session).phase is CheckingSurvivors || final(session).phase is Done)),
{
    match event {
        KillEvent::Begin => {
            if let KillPhase::Start = session.phase {
                session.phase = KillPhase::FindingProcesses;
                KillAction::FindProcesses
            } else {
                KillAction::Unexpected
            }
        },
        KillEvent::ProcessesFound(found) => {
            if let KillPhase::FindingProcesses = session.phase {
                match found {
                    Err(e) => {
                        let message = e.clone();
                        session.error = Some(e);
                        session.phase = KillPhase::Done;
                        KillAction::Finish(Err(message))
                    },
                    Ok(pids) => {
                        session.targeted_count = pids.len();
                        session.pids = pids;
                        if session.unix {
                            session.phase = KillPhase::ReadingProcessTree;
                            KillAction::ReadProcessTree(session.escalate_foreign)
                        } else {
                            session.targets = crate::windows::expand_process_targets(session.pids.as_slice());
                            session.signalled = Vec::new();
                            let plan = plan_kill(&session.targets, None, None, false);
                            session.plan = plan;
                            start_signalling(session)
                        }
                    },
                }
            } else {
                KillAction::Unexpected
            }
        },
        KillEvent::ProcessTreeRead(snapshot, uid) => {
            if let KillPhase::ReadingProcessTree = session.phase {
                session.snapshot = snapshot;
                session.current_uid = uid;
                session.signalled = Vec::new();
                let targets = expand_process_targets(session.pids.as_slice(), session.snapshot.as_ref());
                proof {
                    if session.pids@.len() == 0 {
                        assert(targets@.len() == 0);
                    }
                }
                session.targets = targets;
                let plan = plan_kill(&session.targets, session.snapshot.as_ref(), session.current_uid, session.escalate_foreign);
                session.plan = plan;
                start_signalling(session)
            } else {
                KillAction::Unexpected
            }
        },
        KillEvent::Signalled(gone) => {
            if let KillPhase::Signalling = session.phase {
                session.signalled.push(gone);
                if session.signalled.len() < session.plan.direct.len() {
                    KillAction::ForceKill(session.plan.direct[session.signalled.len()])
                } else {
                    finish_signals(session)
                }
            } else {
                KillAction::Unexpected
            }
        },
        KillEvent::Escalated(ok) => {
            if let KillPhase::Escalating = session.phase {
                session.admin_succeeded = ok;
                session.phase = KillPhase::CheckingSurvivors;
                KillAction::CheckRunning(session.admin_targets[0])
            } else {
                KillAction::Unexpected
            }
        },
        KillEvent::StillRunning(running) => {
            if let KillPhase::CheckingSurvivors = session.phase {
                session.still_running.push(running);
                if session.still_running.len() < session.admin_targets.len() {
                    KillAction::CheckRunning(session.admin_targets[session.still_running.len()])
                } else {
                    finish_report(session)
                }
            } else {
                KillAction::Unexpected
            }
        },
    }
}


/// A finished force-close never reports a pid both as killed and as failed, names no pid
/// twice in either list, and reports only processes it set out to close.
pub proof fn finished_report_consistent(s: KillSession)
    requires
        session_wf(s),
        s.phase is Done,
        s.error is None,
    ensures
        s.reported_killed@.to_set().disjoint(s.reported_failed@.to_set()),
        s.reported_killed@.no_duplicates(),
        s.reported_failed@.no_duplicates(),
        s.reported_killed@.to_set().subset_of(s.targets@.to_set()),
        s.reported_failed@.to_set().subset_of(s.targets@.to_set()),
{
    if s.escalate_foreign {
        kill_report_consistent(
            s.targets@,
            snapshot_ref(&s),
            s.current_uid,
            s.escalate_foreign,
            s.signalled@,
            s.admin_targets@,
            s.admin_succeeded,
            s.still_running@,
        );
    } else {
        direct_kill_report_consistent(
            s.targets@,
            snapshot_ref(&s),
            s.current_uid,
            s.escalate_foreign,
            s.signalled@,
        );
    }
}

} // verus!
