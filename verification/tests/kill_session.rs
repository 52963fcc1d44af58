use codex_switcher::kill_session::{kill_codex_processes_blocking, new_kill_session, KillAction, KillEvent};
use codex_switcher::snapshot::parse_unix_process_snapshot;

const TREE: &str = "100 1 501\n110 100 501\n111 110 0\n120 100 501\n";

#[test]
fn unix_session_signals_descendants_then_the_session() {
    let mut s = new_kill_session(true, false);
    assert!(matches!(kill_codex_processes_blocking(&mut s, KillEvent::Begin), KillAction::FindProcesses));
    assert!(matches!(
        kill_codex_processes_blocking(&mut s, KillEvent::ProcessesFound(Ok(vec![100]))),
        KillAction::ReadProcessTree(false)
    ));
    let snapshot = parse_unix_process_snapshot(TREE);
    let mut asked = Vec::new();
    let mut action = kill_codex_processes_blocking(&mut s, KillEvent::ProcessTreeRead(Some(snapshot), None));
    loop {
        match action {
            KillAction::ForceKill(pid) => {
                asked.push(pid);
                action = kill_codex_processes_blocking(&mut s, KillEvent::Signalled(pid != 111));
            }
            KillAction::Finish(Ok(report)) => {
                assert_eq!(report.targeted_count, 1);
                assert_eq!(report.killed_pids, vec![120, 110, 100]);
                assert_eq!(report.failed_pids, vec![111]);
                break;
            }
            _ => panic!("unexpected request"),
        }
    }
    assert_eq!(asked, vec![120, 110, 111, 100]);
}

#[test]
fn foreign_processes_go_through_the_administrator_script() {
    let mut s = new_kill_session(true, true);
    kill_codex_processes_blocking(&mut s, KillEvent::Begin);
    assert!(matches!(
        kill_codex_processes_blocking(&mut s, KillEvent::ProcessesFound(Ok(vec![100]))),
        KillAction::ReadProcessTree(true)
    ));
    let snapshot = parse_unix_process_snapshot(TREE);
    let mut action = kill_codex_processes_blocking(&mut s, KillEvent::ProcessTreeRead(Some(snapshot), Some(501)));
    let mut signalled = Vec::new();
    while let KillAction::ForceKill(pid) = action {
        signalled.push(pid);
        action = kill_codex_processes_blocking(&mut s, KillEvent::Signalled(pid != 120));
    }
    assert_eq!(signalled, vec![120, 110, 100]);
    match &action {
        KillAction::RunAdminScript(script) => assert!(script.contains("for pid in 111 120;")),
        _ => panic!("expected the administrator script"),
    }
    assert!(matches!(
        kill_codex_processes_blocking(&mut s, KillEvent::Escalated(true)),
        KillAction::CheckRunning(111)
    ));
    assert!(matches!(
        kill_codex_processes_blocking(&mut s, KillEvent::StillRunning(false)),
        KillAction::CheckRunning(120)
    ));
    match kill_codex_processes_blocking(&mut s, KillEvent::StillRunning(true)) {
        KillAction::Finish(Ok(report)) => {
            assert_eq!(report.targeted_count, 1);
            assert_eq!(report.killed_pids, vec![110, 100, 111]);
            assert_eq!(report.failed_pids, vec![120]);
        }
        _ => panic!("expected the report"),
    }
}

#[test]
fn failing_administrator_script_keeps_survivors_failed() {
    let mut s = new_kill_session(true, true);
    kill_codex_processes_blocking(&mut s, KillEvent::Begin);
    kill_codex_processes_blocking(&mut s, KillEvent::ProcessesFound(Ok(vec![111])));
    let snapshot = parse_unix_process_snapshot(TREE);
    let action = kill_codex_processes_blocking(&mut s, KillEvent::ProcessTreeRead(Some(snapshot), Some(501)));
    assert!(matches!(action, KillAction::RunAdminScript(_)));
    assert!(matches!(kill_codex_processes_blocking(&mut s, KillEvent::Escalated(false)), KillAction::CheckRunning(111)));
    match kill_codex_processes_blocking(&mut s, KillEvent::StillRunning(false)) {
        KillAction::Finish(Ok(report)) => {
            assert!(report.killed_pids.is_empty());
            assert!(report.failed_pids.is_empty());
        }
        _ => panic!("expected the report"),
    }
}

#[test]
fn other_platforms_signal_the_sessions_as_found() {
    let mut s = new_kill_session(false, false);
    kill_codex_processes_blocking(&mut s, KillEvent::Begin);
    assert!(matches!(
        kill_codex_processes_blocking(&mut s, KillEvent::ProcessesFound(Ok(vec![7, 3]))),
        KillAction::ForceKill(7)
    ));
    assert!(matches!(kill_codex_processes_blocking(&mut s, KillEvent::Signalled(false)), KillAction::ForceKill(3)));
    match kill_codex_processes_blocking(&mut s, KillEvent::Signalled(true)) {
        KillAction::Finish(Ok(report)) => {
            assert_eq!(report.targeted_count, 2);
            assert_eq!(report.killed_pids, vec![3]);
            assert_eq!(report.failed_pids, vec![7]);
        }
        _ => panic!("expected the report"),
    }
}

#[test]
fn nothing_to_close_finishes_at_once() {
    let mut s = new_kill_session(false, false);
    kill_codex_processes_blocking(&mut s, KillEvent::Begin);
    match kill_codex_processes_blocking(&mut s, KillEvent::ProcessesFound(Ok(vec![]))) {
        KillAction::Finish(Ok(report)) => {
            assert_eq!(report.targeted_count, 0);
            assert!(report.killed_pids.is_empty() && report.failed_pids.is_empty());
        }
        _ => panic!("expected the report"),
    }
}

#[test]
fn listing_errors_are_passed_on() {
    let mut s = new_kill_session(true, true);
    kill_codex_processes_blocking(&mut s, KillEvent::Begin);
    match kill_codex_processes_blocking(&mut s, KillEvent::ProcessesFound(Err("ps failed".to_string()))) {
        KillAction::Finish(Err(message)) => assert_eq!(message, "ps failed"),
        _ => panic!("expected the error"),
    }
    assert!(matches!(kill_codex_processes_blocking(&mut s, KillEvent::Begin), KillAction::Unexpected));
}

#[test]
fn out_of_order_events_change_nothing() {
    let mut s = new_kill_session(true, false);
    assert!(matches!(kill_codex_processes_blocking(&mut s, KillEvent::Signalled(true)), KillAction::Unexpected));
    assert!(matches!(kill_codex_processes_blocking(&mut s, KillEvent::Begin), KillAction::FindProcesses));
}

#[test]
fn nothing_to_close_on_unix_finishes_after_the_tree_read() {
    let mut s = new_kill_session(true, true);
    kill_codex_processes_blocking(&mut s, KillEvent::Begin);
    assert!(matches!(
        kill_codex_processes_blocking(&mut s, KillEvent::ProcessesFound(Ok(vec![]))),
        KillAction::ReadProcessTree(true)
    ));
    match kill_codex_processes_blocking(&mut s, KillEvent::ProcessTreeRead(None, Some(501))) {
        KillAction::Finish(Ok(report)) => {
            assert_eq!(report.targeted_count, 0);
            assert!(report.killed_pids.is_empty() && report.failed_pids.is_empty());
        }
        _ => panic!("expected the report"),
    }
}
