use codex_switcher::windows::{
    classify_windows_codex_processes, expand_process_targets, is_windows_codex_root_process,
    windows_has_descendant_matching, WindowsCodexProcess,
};

fn process(name: &str, pid: u32, parent: u32, command: &str, title: &str) -> WindowsCodexProcess {
    WindowsCodexProcess {
        name: name.to_string(),
        process_id: pid,
        parent_process_id: parent,
        command_line: command.to_string(),
        main_window_title: title.to_string(),
    }
}

#[test]
fn root_processes_are_recognised() {
    assert!(is_windows_codex_root_process(&process("Codex.exe", 1, 0, "C:\\Codex\\Codex.exe", "")));
    assert!(!is_windows_codex_root_process(&process("Codex.exe", 1, 0, "Codex.exe --type=renderer", "")));
    assert!(!is_windows_codex_root_process(&process("codex.exe", 1, 0, "C:\\Codex\\resources\\codex.exe app-server", "")));
    assert!(!is_windows_codex_root_process(&process("Codex.exe", 1, 0, "C:\\Codex-Switcher\\Codex.exe", "")));
    assert!(!is_windows_codex_root_process(&process("Other.exe", 1, 0, "Codex.exe", "")));
}

#[test]
fn descendants_are_searched_through_the_tree() {
    let procs = vec![
        process("Codex.exe", 10, 1, "Codex.exe", ""),
        process("Codex.exe", 11, 10, "Codex.exe --type=gpu-process", ""),
        process("Codex.exe", 12, 11, "Codex.exe --type=renderer", ""),
        process("Codex.exe", 20, 1, "Codex.exe", ""),
    ];
    let is_renderer = |p: &WindowsCodexProcess| p.command_line.contains("--type=renderer");
    assert!(windows_has_descendant_matching(10, &procs, is_renderer));
    assert!(!windows_has_descendant_matching(20, &procs, is_renderer));
    assert!(!windows_has_descendant_matching(12, &procs, is_renderer));
}

#[test]
fn live_instances_are_active_and_stale_ones_ignored() {
    let procs = vec![
        process("Codex.exe", 100, 1, "C:\\Codex\\Codex.exe", "Codex"),
        process("Codex.exe", 200, 1, "C:\\Codex\\Codex.exe", "   "),
        process("Codex.exe", 201, 200, "C:\\Codex\\Codex.exe --type=renderer", ""),
        process("Codex.exe", 300, 1, "C:\\Codex\\Codex.exe", ""),
        process("codex.exe", 301, 300, "C:\\Codex\\resources\\codex.exe APP-SERVER", ""),
        process("Codex.exe", 400, 1, "C:\\Codex\\Codex.exe", ""),
        process("Codex.exe", 401, 400, "C:\\Codex\\Codex.exe --type=gpu-process", ""),
        process("Codex.exe", 500, 1, "C:\\Users\\me\\.vscode\\extensions\\openai.chatgpt\\codex.exe", "Editor"),
        process("Codex.exe", 100, 1, "C:\\Codex\\Codex.exe", "Again"),
    ];
    let (active, ignored) = classify_windows_codex_processes(&procs);
    assert_eq!(active, vec![100, 200, 300]);
    assert_eq!(ignored, 2);
}

#[test]
fn nothing_running_gives_nothing() {
    let (active, ignored) = classify_windows_codex_processes(&Vec::new());
    assert!(active.is_empty());
    assert_eq!(ignored, 0);
}

#[test]
fn a_repeated_pid_is_examined_through_its_first_entry() {
    let procs = vec![
        process("Codex.exe", 10, 1, "C:\\Codex\\Codex.exe", ""),
        process("Codex.exe", 11, 10, "C:\\Codex\\Codex.exe --type=gpu-process", ""),
        process("Codex.exe", 11, 10, "C:\\Codex\\Codex.exe --type=renderer", ""),
    ];
    let is_renderer = |p: &WindowsCodexProcess| p.command_line.contains("--type=renderer");
    assert!(!windows_has_descendant_matching(10, &procs, is_renderer));
    let (active, ignored) = classify_windows_codex_processes(&procs);
    assert!(active.is_empty());
    assert_eq!(ignored, 1);
}

#[test]
fn windows_targets_are_the_sessions_as_found() {
    assert_eq!(expand_process_targets(&[30, 10, 30]), vec![30, 10, 30]);
    assert_eq!(expand_process_targets(&[]), Vec::<u32>::new());
}
