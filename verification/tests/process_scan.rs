use codex_switcher::process_info::codex_process_info;
use codex_switcher::ps_scan::{classify_ps_line, is_ide_plugin_process, scan_ps_codex_processes, PsLine};

fn chars(s: &str) -> Vec<char> {
    s.chars().collect()
}

fn words(line: &str) -> Vec<Vec<char>> {
    line.split_whitespace().map(chars).collect()
}

#[test]
fn interactive_cli_sessions_are_active() {
    let (pids, bg) = scan_ps_codex_processes("  101 ttys001  codex\n102 ttys002 /usr/local/bin/codex --model o3\n", 1);
    assert_eq!(pids, vec![101, 102]);
    assert_eq!(bg, 0);
}

#[test]
fn headless_app_server_and_plugins_are_background() {
    let listing = "201 ?? codex\n\
                   202 ttys003 codex app-server --port 1\n\
                   203 ttys004 codex --from /Users/me/.vscode/extensions/openai.chatgpt/bin\n\
                   204 ? /opt/codex exec\n";
    let (pids, bg) = scan_ps_codex_processes(listing, 1);
    assert!(pids.is_empty());
    assert_eq!(bg, 4);
}

#[test]
fn desktop_app_is_active_but_helpers_are_not() {
    let listing = "301 ?? /Applications/Codex.app/Contents/MacOS/Codex\n\
                   302 ?? /Applications/Codex.app/Contents/Frameworks/Codex Helper.app/Contents/MacOS/Codex Helper --type=gpu\n\
                   303 ?? /Applications/CodexBar.app/Contents/MacOS/CodexBar\n\
                   304 ?? /Applications/Codex.app/Contents/MacOS/Codex Helper (Renderer)\n";
    let (pids, bg) = scan_ps_codex_processes(listing, 1);
    assert_eq!(pids, vec![301]);
    assert_eq!(bg, 0);
}

#[test]
fn switcher_self_duplicates_and_garbage_are_ignored() {
    let listing = "401 ttys001 /Applications/Codex-Switcher.app/Contents/MacOS/codex\n\
                   402 ttys001 codex\n\
                   403 ttys001 codex\n\
                   403 ttys009 codex\n\
                   403 ?? codex\n\
                   abc ttys001 codex\n\
                   404 ttys001\n\
                   \n\
                   405\n\
                   406 ttys001 python codex\n";
    let (pids, bg) = scan_ps_codex_processes(listing, 402);
    assert_eq!(pids, vec![403]);
    assert_eq!(bg, 0);
}

#[test]
fn pids_come_out_sorted() {
    let listing = "900 ttys1 codex\n20 ttys2 codex\n300 ttys3 codex\n+7 ttys4 codex\r\n";
    let (pids, bg) = scan_ps_codex_processes(listing, 1);
    assert_eq!(pids, vec![7, 20, 300, 900]);
    assert_eq!(bg, 0);
}

#[test]
fn background_entries_may_repeat_a_pid() {
    let listing = "501 ?? codex\n501 ?? codex\n";
    let (pids, bg) = scan_ps_codex_processes(listing, 1);
    assert!(pids.is_empty());
    assert_eq!(bg, 2);
}

#[test]
fn out_of_range_pids_are_skipped() {
    let (pids, bg) = scan_ps_codex_processes("4294967296 ttys1 codex\n4294967295 ttys1 codex\n", 1);
    assert_eq!(pids, vec![4294967295]);
    assert_eq!(bg, 0);
}

#[test]
fn line_verdicts() {
    assert!(matches!(classify_ps_line(&words("7 ttys1 codex"), 1, &vec![]), PsLine::Active(7)));
    assert!(matches!(classify_ps_line(&words("7 ttys1 codex"), 1, &vec![7]), PsLine::Ignored));
    assert!(matches!(classify_ps_line(&words("7 ?? codex"), 1, &vec![]), PsLine::Background));
    assert!(matches!(classify_ps_line(&words("7 ?? CODEX APP-SERVER"), 1, &vec![]), PsLine::Ignored));
    assert!(matches!(classify_ps_line(&words("7 ?? codex  App-Server"), 1, &vec![]), PsLine::Background));
}

#[test]
fn ide_plugins_are_recognised() {
    assert!(is_ide_plugin_process("/home/u/.antigravity/bin/codex"));
    assert!(is_ide_plugin_process("x openai.chatgpt y"));
    assert!(is_ide_plugin_process("/home/u/.vscode/codex"));
    assert!(!is_ide_plugin_process("/home/u/.VSCODE/codex"));
    assert!(!is_ide_plugin_process("codex"));
}

#[test]
fn process_info_reports_whether_switching_is_allowed() {
    let info = codex_process_info(vec![3, 9], 4);
    assert_eq!(info.count, 2);
    assert_eq!(info.background_count, 4);
    assert!(!info.can_switch);
    assert_eq!(info.pids, vec![3, 9]);
    let idle = codex_process_info(Vec::new(), 1);
    assert_eq!(idle.count, 0);
    assert!(idle.can_switch);
}

#[test]
fn counts_never_exceed_the_non_blank_lines() {
    let listing = "\n  10 ttys001 codex\n\n  11 ?? codex app-server\n  12 ttys002 codex-switcher\n   \n";
    let (pids, background) = scan_ps_codex_processes(listing, 1);
    assert_eq!(pids, vec![10]);
    assert_eq!(background, 1);
    let non_blank = listing.lines().filter(|l| !l.trim().is_empty()).count();
    assert!(pids.len() + background <= non_blank);
}
