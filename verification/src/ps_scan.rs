//! Finding the Codex sessions in the output of `ps -axo pid=,tty=,command=`.
use vstd::prelude::*;

use crate::pid_set::{insert_pid_sorted, contains_pid, strictly_increasing};
use crate::text::{
    ascii_lower, contains_str, ends_with, ends_with_str, equals_str, has_sub, join, join_from,
    lines, lowercase, parse_u32, parse_u32_chars, split_lines, split_words, views, words,
    chars_of,
};

verus! {

/// What one line of the process listing contributes.
pub enum PsLine {
    /// Not a Codex session, unreadable, this process itself, or a pid already counted.
    Ignored,
    /// A Codex process that does not block switching (IDE plugin, app server, headless).
    Background,
    /// An active Codex session with this pid.
    Active(u32),
}

/// A command line that belongs to an editor extension.
pub open spec fn is_ide_plugin(lower_command: Seq<char>) -> bool {
    ||| has_sub(lower_command, ".antigravity"@)
    ||| has_sub(lower_command, "openai.chatgpt"@)
    ||| has_sub(lower_command, ".vscode"@)
}

/// The first word of a command runs the Codex CLI.
pub open spec fn is_codex_cli(first_word: Seq<char>) -> bool {
    first_word == "codex"@ || ends_with(first_word, "/codex"@)
}

/// The command runs the Codex desktop app (not one of its helpers, nor CodexBar).
pub open spec fn is_codex_desktop(command: Seq<char>) -> bool {
    &&& has_sub(command, ".app/Contents/MacOS/Codex"@)
    &&& !has_sub(command, "Codex Helper"@)
    &&& !has_sub(command, "CodexBar"@)
}

/// `ps` shows a controlling terminal (it prints `?` or `??` for none).
pub open spec fn has_tty(tty: Seq<char>) -> bool {
    tty != "??"@ && tty != "?"@
}

/// The verdict on one line of the listing, given as its words (pid, tty, then the
/// command), when the pids in `active` were already counted as active.
pub open spec fn ps_line_verdict(t: Seq<Seq<char>>, self_pid: u32, active: Set<u32>) -> PsLine {
    if t.len() < 3 {
        PsLine::Ignored
    } else {
        let command = join(t.skip(2), seq![' ']);
        let lower = ascii_lower(command);
        let desktop = is_codex_desktop(command);
        if has_sub(lower, "codex-switcher"@) || (!is_codex_cli(t[2]) && !desktop) {
            PsLine::Ignored
        } else {
            match parse_u32(t[0]) {
                None => PsLine::Ignored,
                Some(pid) => {
                    if pid == self_pid || active.contains(pid) {
                        PsLine::Ignored
                    } else if is_ide_plugin(lower) || has_sub(lower, "codex app-server"@) {
                        PsLine::Background
                    } else if desktop || has_tty(t[1]) {
                        PsLine::Active(pid)
                    } else {
                        PsLine::Background
                    }
                },
            }
        }
    }
}

/// Active pids and background count after one more line.
pub open spec fn ps_scan_step(st: (Set<u32>, nat), t: Seq<Seq<char>>, self_pid: u32) -> (Set<u32>, nat) {
    match ps_line_verdict(t, self_pid, st.0) {
        PsLine::Ignored => st,
        PsLine::Background => (st.0, st.1 + 1),
        PsLine::Active(pid) => (st.0.insert(pid), st.1),
    }
}

/// Active pids and background count over the lines `ls`, in order.
pub open spec fn ps_scan(ls: Seq<Seq<char>>, self_pid: u32) -> (Set<u32>, nat)
    decreases ls.len(),
{
    if ls.len() == 0 {
        (Set::empty(), 0)
    } else {
        ps_scan_step(ps_scan(ls.drop_last(), self_pid), words(ls.last()), self_pid)
    }
}

/// Active Codex pids and number of background Codex processes in a listing.
pub open spec fn codex_processes_in_listing(listing: Seq<char>, self_pid: u32) -> (Set<u32>, nat) {
    ps_scan(lines(listing), self_pid)
}

/// The number of lines of `ls` that hold at least one word.
pub open spec fn nonblank_lines(ls: Seq<Seq<char>>) -> nat
    decreases ls.len(),
{
    if ls.len() == 0 {
        0
    } else {
        nonblank_lines(ls.drop_last()) + if words(ls.last()).len() > 0 {
            1nat
        } else {
            0nat
        }
    }
}

/// Whether a lower-cased command line belongs to an editor extension.
pub fn is_ide_plugin_process(command: &str) -> (r: bool)
    ensures
        r == is_ide_plugin(command@),
{
    is_ide_plugin_chars(&chars_of(command))
}

/// Whether a lower-cased command line, given as its characters, belongs to an editor
/// extension.
pub fn is_ide_plugin_chars(command: &Vec<char>) -> (r: bool)
    ensures
        r == is_ide_plugin(command@),
{
    contains_str(command, ".antigravity") || contains_str(command, "openai.chatgpt")
        || contains_str(command, ".vscode")
}

/// The verdict on one line of the listing, split into words.
pub fn classify_ps_line(t: &Vec<Vec<char>>, self_pid: u32, active: &Vec<u32>) -> (r: PsLine)
    ensures
        r == ps_line_verdict(views(t@), self_pid, active@.to_set()),
{
    if t.len() < 3 {
        return PsLine::Ignored;
    }
    let command = join_from(t, 2, ' ');
    let lower = lowercase(&command);
    if contains_str(&lower, "codex-switcher") {
        return PsLine::Ignored;
    }
    let first = &t[2];
    let is_cli = equals_str(first, "codex") || ends_with_str(first, "/codex");
    let is_desktop = contains_str(&command, ".app/Contents/MacOS/Codex") && !contains_str(
        &command,
        "Codex Helper",
    ) && !contains_str(&command, "CodexBar");
    if !is_cli && !is_desktop {
        return PsLine::Ignored;
    }
    let pid = match parse_u32_chars(&t[0]) {
        Some(pid) => pid,
        None => {
            return PsLine::Ignored;
        },
    };
    if pid == self_pid || contains_pid(active, pid) {
        return PsLine::Ignored;
    }
    let is_plugin = is_ide_plugin_chars(&lower);
    let is_app_server = contains_str(&lower, "codex app-server");
    let tty = &t[1];
    let has_tty = !equals_str(tty, "??") && !equals_str(tty, "?");
    if is_plugin || is_app_server {
        PsLine::Background
    } else if is_desktop || has_tty {
        PsLine::Active(pid)
    } else {
        PsLine::Background
    }
}

/// Finds the Codex sessions in the output of `ps -axo pid=,tty=,command=`.
/// Returns the active session pids, sorted and without duplicates, and the number of
/// ignored background Codex processes. `self_pid` is the pid of this process.
pub fn scan_ps_codex_processes(listing: &str, self_pid: u32) -> (r: (Vec<u32>, usize))
    ensures
        strictly_increasing(r.0@),
        r.0@.to_set() == codex_processes_in_listing(listing@, self_pid).0,
        r.1 as nat == codex_processes_in_listing(listing@, self_pid).1,
        r.0@.len() + r.1 <= nonblank_lines(lines(listing@)),
{
    let chars = chars_of(listing);
    let ls = split_lines(&chars);
    let mut pids: Vec<u32> = Vec::new();
    let mut background: usize = 0;
    let mut i: usize = 0;
    assert(views(ls@).take(0) =~= Seq::<Seq<char>>::empty());
    assert(pids@.to_set() =~= Set::<u32>::empty());
    while i < ls.len()
        invariant
            i <= ls.len(),
            background <= i,
            strictly_increasing(pids@),
            (pids@.to_set(), background as nat) == ps_scan(views(ls@).take(i as int), self_pid),
        decreases ls.len() - i,
    {
        let t = split_words(&ls[i]);
        proof {
            assert(views(ls@).take(i + 1).drop_last() =~= views(ls@).take(i as int));
            assert(views(ls@).take(i + 1).last() == ls@[i as int]@);
        }
        match classify_ps_line(&t, self_pid, &pids) {
            PsLine::Ignored => {},
            PsLine::Background => {
                background = background + 1;
            },
            PsLine::Active(pid) => {
                insert_pid_sorted(&mut pids, pid);
            },
        }
        i = i + 1;
    }
    assert(views(ls@).take(ls.len() as int) =~= views(ls@));
    proof {
        scan_counts_bounded(listing@, self_pid);
        assert(pids@.no_duplicates());
        pids@.unique_seq_to_set();
    }
    (pids, background)
}


/// This process itself is never reported as an active Codex session.
pub proof fn scan_never_reports_self(listing: Seq<char>, self_pid: u32)
    ensures
        !codex_processes_in_listing(listing, self_pid).0.contains(self_pid),
{
    lemma_scan_excludes(lines(listing), self_pid);
}

/// The command words of a listing line, lower-cased and joined by single spaces.
pub open spec fn lower_command(t: Seq<Seq<char>>) -> Seq<char> {
    ascii_lower(join(t.skip(2), seq![' ']))
}

/// The lower-cased command carries none of the markers of the switcher, of an editor
/// plugin or of an app server.
pub open spec fn no_marker(lower: Seq<char>) -> bool {
    &&& !has_sub(lower, "codex-switcher"@)
    &&& !has_sub(lower, ".antigravity"@)
    &&& !has_sub(lower, "openai.chatgpt"@)
    &&& !has_sub(lower, ".vscode"@)
    &&& !has_sub(lower, "codex app-server"@)
}

/// The first command word runs the Codex CLI: it is `codex`, or a path ending in
/// `/codex`, whatever directories come before.
pub open spec fn names_codex_cli(w: Seq<char>) -> bool {
    w == "codex"@ || (w.len() >= 6 && w.skip(w.len() - 6) == "/codex"@)
}

/// A Codex CLI line with a terminal (any tty other than `?` and `??`) is an active
/// session, whatever the terminal is called and wherever the binary lives, unless it is
/// this process, already counted, or marked as switcher, plugin or app server.
pub proof fn cli_with_terminal_is_active(t: Seq<Seq<char>>, self_pid: u32, active: Set<u32>)
    requires
        t.len() >= 3,
        names_codex_cli(t[2]),
        t[1] != "?"@,
        t[1] != "??"@,
        parse_u32(t[0]) is Some,
        parse_u32(t[0])->0 != self_pid,
        !active.contains(parse_u32(t[0])->0),
        no_marker(lower_command(t)),
    ensures
        ps_line_verdict(t, self_pid, active) == PsLine::Active(parse_u32(t[0])->0),
{
    reveal_strlit("/codex");
    let w = t[2];
    if w != "codex"@ {
        assert(w.subrange(w.len() - 6, w.len() as int) =~= w.skip(w.len() - 6));
    }
    assert(is_codex_cli(t[2]));
}

/// A Codex CLI line without a terminal (`?` or `??`) that is not the desktop app is a
/// background process, unless it is this process, already counted, or the switcher.
pub proof fn cli_without_terminal_is_background(t: Seq<Seq<char>>, self_pid: u32, active: Set<u32>)
    requires
        t.len() >= 3,
        names_codex_cli(t[2]),
        t[1] == "?"@ || t[1] == "??"@,
        !has_sub(join(t.skip(2), seq![' ']), ".app/Contents/MacOS/Codex"@),
        parse_u32(t[0]) is Some,
        parse_u32(t[0])->0 != self_pid,
        !active.contains(parse_u32(t[0])->0),
        !has_sub(lower_command(t), "codex-switcher"@),
    ensures
        ps_line_verdict(t, self_pid, active) == PsLine::Background,
{
    reveal_strlit("/codex");
    reveal_strlit("?");
    reveal_strlit("??");
    let w = t[2];
    if w != "codex"@ {
        assert(w.subrange(w.len() - 6, w.len() as int) =~= w.skip(w.len() - 6));
    }
    assert(is_codex_cli(t[2]));
    assert(!has_tty(t[1]));
}

/// Each active session and each background process comes from a non-blank line of its
/// own: together they number at most the non-blank lines of the listing.
pub proof fn scan_counts_bounded(listing: Seq<char>, self_pid: u32)
    ensures
        codex_processes_in_listing(listing, self_pid).0.finite(),
        codex_processes_in_listing(listing, self_pid).0.len() + codex_processes_in_listing(listing, self_pid).1
            <= nonblank_lines(lines(listing)),
{
    lemma_scan_bounded(lines(listing), self_pid);
}

proof fn lemma_scan_bounded(ls: Seq<Seq<char>>, self_pid: u32)
    ensures
        ps_scan(ls, self_pid).0.finite(),
        ps_scan(ls, self_pid).0.len() + ps_scan(ls, self_pid).1 <= nonblank_lines(ls),
    decreases ls.len(),
{
    if ls.len() > 0 {
        lemma_scan_bounded(ls.drop_last(), self_pid);
        let st = ps_scan(ls.drop_last(), self_pid);
        let t = words(ls.last());
        match ps_line_verdict(t, self_pid, st.0) {
            PsLine::Ignored => {},
            PsLine::Background => {
                assert(t.len() > 0);
            },
            PsLine::Active(pid) => {
                assert(t.len() > 0);
                assert(!st.0.contains(pid));
            },
        }
    }
}

proof fn lemma_scan_excludes(ls: Seq<Seq<char>>, self_pid: u32)
    ensures
        !ps_scan(ls, self_pid).0.contains(self_pid),
    decreases ls.len(),
{
    if ls.len() > 0 {
        lemma_scan_excludes(ls.drop_last(), self_pid);
    }
}

} // verus!
