use codex_switcher::kill::{
    admin_kill_script, admin_retry_targets, parse_uid_output, plan_kill, ps_lists_pid,
    record_kill_outcomes, settle_admin_kill, tasklist_lists_pid,
};
use codex_switcher::snapshot::{expand_process_targets, parse_unix_process_snapshot};

const TREE: &str = "  1     0   0\n\
                    100     1 501\n\
                    110   100 501\n\
                    111   110   0\n\
                    120   100 501\n\
                    200     1 501\n\
                    210   200 501\n\
                    bad   200 501\n\
                    300   999\n\
                    400   400 501\n";

#[test]
fn snapshot_records_children_in_order_and_owners() {
    let snapshot = parse_unix_process_snapshot(TREE);
    assert_eq!(snapshot.children_by_parent.get(&100), Some(&vec![110, 120]));
    assert_eq!(snapshot.children_by_parent.get(&1), Some(&vec![100, 200]));
    assert_eq!(snapshot.children_by_parent.get(&200), Some(&vec![210]));
    assert_eq!(snapshot.children_by_parent.get(&999), None);
    assert_eq!(snapshot.uid_by_pid.get(&111), Some(&0));
    assert_eq!(snapshot.uid_by_pid.get(&110), Some(&501));
    assert_eq!(snapshot.uid_by_pid.get(&300), None);
    assert_eq!(snapshot.uid_by_pid.len(), 8);
}

#[test]
fn later_rows_override_the_owner() {
    let snapshot = parse_unix_process_snapshot("5 1 10\n5 2 20\n");
    assert_eq!(snapshot.uid_by_pid.get(&5), Some(&20));
    assert_eq!(snapshot.children_by_parent.get(&1), Some(&vec![5]));
    assert_eq!(snapshot.children_by_parent.get(&2), Some(&vec![5]));
}

#[test]
fn targets_cover_descendants_then_sessions() {
    let snapshot = parse_unix_process_snapshot(TREE);
    let targets = expand_process_targets(&[100], Some(&snapshot));
    assert_eq!(targets, vec![120, 110, 111, 100]);
}

#[test]
fn targets_list_each_process_once() {
    let snapshot = parse_unix_process_snapshot(TREE);
    let targets = expand_process_targets(&[100, 110, 100, 200], Some(&snapshot));
    assert_eq!(targets, vec![120, 110, 111, 210, 100, 200]);
}

#[test]
fn cycles_in_the_tree_end() {
    let snapshot = parse_unix_process_snapshot(TREE);
    assert_eq!(expand_process_targets(&[400], Some(&snapshot)), vec![400]);
    let looped = parse_unix_process_snapshot("7 8 0\n8 7 0\n");
    assert_eq!(expand_process_targets(&[7], Some(&looped)), vec![8, 7]);
}

#[test]
fn without_snapshot_only_sessions_are_targets() {
    assert_eq!(expand_process_targets(&[5, 3, 5, 9, 3], None), vec![5, 3, 9]);
    assert_eq!(expand_process_targets(&[], None), Vec::<u32>::new());
}

#[test]
fn foreign_processes_go_to_the_administrator_path() {
    let snapshot = parse_unix_process_snapshot(TREE);
    let targets = vec![120, 110, 111, 100, 777];
    let plan = plan_kill(&targets, Some(&snapshot), Some(501), true);
    assert_eq!(plan.direct, vec![120, 110, 100, 777]);
    assert_eq!(plan.escalated, vec![111]);
    let no_escalation = plan_kill(&targets, Some(&snapshot), Some(501), false);
    assert_eq!(no_escalation.direct, targets);
    assert!(no_escalation.escalated.is_empty());
    let unknown_user = plan_kill(&targets, Some(&snapshot), None, true);
    assert_eq!(unknown_user.direct, targets);
    let no_snapshot = plan_kill(&targets, None, Some(501), true);
    assert!(no_snapshot.escalated.is_empty());
}

#[test]
fn outcomes_are_recorded_in_order() {
    let (killed, failed) = record_kill_outcomes(&vec![4, 2, 9, 1], &vec![true, false, true, false]);
    assert_eq!(killed, vec![4, 9]);
    assert_eq!(failed, vec![2, 1]);
}

#[test]
fn administrator_targets_are_sorted_and_distinct() {
    assert_eq!(admin_retry_targets(&vec![30, 10], &vec![20, 10, 30]), vec![10, 20, 30]);
    assert!(admin_retry_targets(&vec![], &vec![]).is_empty());
}

#[test]
fn administrator_outcome_is_settled() {
    let targets = vec![10, 20, 30];
    let running = vec![false, true, false];
    let (killed, failed) = settle_admin_kill(&targets, true, &running, vec![5, 30]);
    assert_eq!(killed, vec![5, 30, 10]);
    assert_eq!(failed, vec![20]);
    let (killed, failed) = settle_admin_kill(&targets, false, &running, vec![5]);
    assert_eq!(killed, vec![5]);
    assert_eq!(failed, vec![20]);
}

#[test]
fn administrator_script_lists_the_pids() {
    assert_eq!(admin_kill_script(&vec![]), None);
    assert_eq!(
        admin_kill_script(&vec![12, 3400]).unwrap(),
        "do shell script \"for pid in 12 3400; do /bin/kill -9 \\\"$pid\\\" 2>/dev/null || true; done\" with administrator privileges with prompt \"Codex Switcher needs permission to force close sudo/root Codex processes.\""
    );
    assert_eq!(
        admin_kill_script(&vec![0]).unwrap(),
        format!(
            r#"do shell script "for pid in {}; do /bin/kill -9 \"$pid\" 2>/dev/null || true; done" with administrator privileges with prompt "Codex Switcher needs permission to force close sudo/root Codex processes.""#,
            0
        )
    );
}

#[test]
fn ps_output_is_checked_for_the_pid() {
    assert!(ps_lists_pid(true, "  4321\n", 4321));
    assert!(!ps_lists_pid(false, "  4321\n", 4321));
    assert!(!ps_lists_pid(true, "  43210\n", 4321));
    assert!(!ps_lists_pid(true, "", 4321));
    assert!(ps_lists_pid(true, "0", 0));
}

#[test]
fn tasklist_output_is_searched_for_the_pid() {
    assert!(tasklist_lists_pid("\"Codex.exe\",\"43210\",\"Console\"", 4321));
    assert!(!tasklist_lists_pid("INFO: No tasks are running", 4321));
}

#[test]
fn uid_output_is_read() {
    assert_eq!(parse_uid_output(true, " 501\n"), Some(501));
    assert_eq!(parse_uid_output(false, "501\n"), None);
    assert_eq!(parse_uid_output(true, "5 01\n"), None);
    assert_eq!(parse_uid_output(true, "\n"), None);
}
