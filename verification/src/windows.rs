//! Finding the live Codex app instances among the `Codex.exe` processes that Windows
//! reports (name, pid, parent pid, command line, main window title).
use std::collections::HashSet;
use vstd::prelude::*;

use crate::pid_set::{insert_pid_sorted, strictly_increasing};
use crate::ps_scan::{is_ide_plugin, is_ide_plugin_chars};
use crate::snapshot::lemma_u32_set_len;
use crate::text::{ascii_lower, chars_of, contains_str, equals_str, has_sub, lowercase, trim, trim_chars};

verus! {

broadcast use vstd::std_specs::hash::group_hash_axioms;

/// One `Codex.exe` process as Windows reports it.
pub struct WindowsCodexProcess {
    pub name: String,
    pub process_id: u32,
    pub parent_process_id: u32,
    pub command_line: String,
    pub main_window_title: String,
}

/// A top-level Codex app process: not the switcher, not an Electron helper
/// (`--type=...`), not the bundled CLI (`resources\codex.exe`).
pub open spec fn is_windows_root(p: WindowsCodexProcess) -> bool {
    let command = ascii_lower(p.command_line@);
    &&& ascii_lower(p.name@) == "codex.exe"@
    &&& !has_sub(command, "codex-switcher"@)
    &&& !has_sub(command, "--type="@)
    &&& !has_sub(command, "resources\\codex.exe"@)
}

/// Whether `process` is a top-level Codex app process.
pub fn is_windows_codex_root_process(process: &WindowsCodexProcess) -> (r: bool)
    ensures
        r == is_windows_root(*process),
{
    let name = lowercase(&chars_of(process.name.as_str()));
    let command = lowercase(&chars_of(process.command_line.as_str()));
    equals_str(&name, "codex.exe") && !contains_str(&command, "codex-switcher") && !contains_str(
        &command,
        "--type=",
    ) && !contains_str(&command, "resources\\codex.exe")
}

/// The processes to close for the sessions `root_pids` where the kill command closes
/// each process tree itself (`taskkill /T`): the sessions as found, in order.
pub fn expand_process_targets(root_pids: &[u32]) -> (targets: Vec<u32>)
    ensures
        targets@ == root_pids@,
{
    let mut targets: Vec<u32> = Vec::new();
    let mut i: usize = 0;
    while i < root_pids.len()
        invariant
            i <= root_pids.len(),
            targets@ == root_pids@.take(i as int),
        decreases root_pids.len() - i,
    {
        targets.push(root_pids[i]);
        i = i + 1;
        assert(targets@ =~= root_pids@.take(i as int));
    }
    assert(root_pids@.take(i as int) =~= root_pids@);
    targets
}

/// `path` lists entries of `procs`, the first a child of `root`, each next one a child of
/// the one before.
pub open spec fn chain_below(procs: Seq<WindowsCodexProcess>, root: u32, path: Seq<int>) -> bool {
    &&& path.len() >= 1
    &&& forall|k: int| 0 <= k < path.len() ==> 0 <= #[trigger] path[k] < procs.len()
    &&& procs[path[0]].parent_process_id == root
    &&& forall|k: int|
        0 <= k < path.len() - 1 ==> procs[path[k + 1]].parent_process_id == procs[#[trigger] path[k]].process_id
}

/// Entry `e` of `procs` lies in the process tree below `root`.
pub open spec fn below(procs: Seq<WindowsCodexProcess>, root: u32, e: int) -> bool {
    exists|path: Seq<int>| #[trigger] chain_below(procs, root, path) && path.last() == e
}

/// Some entry below `root` has process id `x`.
pub open spec fn pid_below(procs: Seq<WindowsCodexProcess>, root: u32, x: u32) -> bool {
    exists|e: int| #[trigger] below(procs, root, e) && procs[e].process_id == x
}

proof fn lemma_below_child(procs: Seq<WindowsCodexProcess>, root: u32, j: int)
    requires
        0 <= j < procs.len(),
        procs[j].parent_process_id == root,
    ensures
        below(procs, root, j),
{
    let path = seq![j];
    assert(chain_below(procs, root, path));
}

proof fn lemma_below_extend(procs: Seq<WindowsCodexProcess>, root: u32, e: int, j: int)
    requires
        below(procs, root, e),
        0 <= j < procs.len(),
        procs[j].parent_process_id == procs[e].process_id,
    ensures
        below(procs, root, j),
{
    let path = choose|path: Seq<int>| #[trigger] chain_below(procs, root, path) && path.last() == e;
    let p2 = path.push(j);
    assert forall|k: int| 0 <= k < p2.len() - 1 implies procs[p2[k + 1]].parent_process_id
        == procs[#[trigger] p2[k]].process_id by {
        if k < path.len() - 1 {
            assert(p2[k] == path[k] && p2[k + 1] == path[k + 1]);
        }
    }
    assert(chain_below(procs, root, p2));
}

/// Scanning `procs` from entry `j` on for children of `parent`: each child whose pid is
/// not in `seen` is examined and its pid added to `seen`. Gives the entries examined, in
/// order, and `seen` at the end.
pub open spec fn scan_children(procs: Seq<WindowsCodexProcess>, parent: u32, j: int, seen: Set<u32>) -> (Seq<int>, Set<u32>)
    decreases procs.len() - j,
{
    if j >= procs.len() {
        (Seq::empty(), seen)
    } else if procs[j].parent_process_id == parent && !seen.contains(procs[j].process_id) {
        let rest = scan_children(procs, parent, j + 1, seen.insert(procs[j].process_id));
        (seq![j] + rest.0, rest.1)
    } else {
        scan_children(procs, parent, j + 1, seen)
    }
}

/// The process ids of the entries `entries` of `procs`.
pub open spec fn pids_of(procs: Seq<WindowsCodexProcess>, entries: Seq<int>) -> Seq<u32> {
    entries.map_values(|e: int| procs[e].process_id)
}

/// A scan adds one pid to `seen` for each entry it examines.
pub proof fn lemma_scan_children(procs: Seq<WindowsCodexProcess>, parent: u32, j: int, seen: Set<u32>)
    requires
        seen.finite(),
    ensures
        scan_children(procs, parent, j, seen).1.finite(),
        scan_children(procs, parent, j, seen).1.len() == seen.len() + scan_children(procs, parent, j, seen).0.len(),
        scan_children(procs, parent, j, seen).0.len() == 0 ==> scan_children(procs, parent, j, seen).1 == seen,
    decreases procs.len() - j,
{
    if j < procs.len() {
        if procs[j].parent_process_id == parent && !seen.contains(procs[j].process_id) {
            lemma_scan_children(procs, parent, j + 1, seen.insert(procs[j].process_id));
        } else {
            lemma_scan_children(procs, parent, j + 1, seen);
        }
    }
}

/// The walk over the tree: take the last pid of `queue` and scan for its children; the
/// pids of the entries examined go onto `queue`. Gives every entry examined, in order.
#[verifier::opaque]
pub open spec fn walk_below(procs: Seq<WindowsCodexProcess>, queue: Seq<u32>, seen: Set<u32>) -> Seq<int>
    decreases 0x1_0000_0000 - seen.len(), queue.len(),
{
    if queue.len() == 0 || !seen.finite() {
        Seq::empty()
    } else {
        let step = scan_children(procs, queue.last(), 0, seen);
        proof {
            lemma_scan_children(procs, queue.last(), 0, seen);
            lemma_u32_set_len(step.1);
        }
        if step.0.len() == 0 {
            walk_below(procs, queue.drop_last(), seen)
        } else {
            step.0 + walk_below(procs, queue.drop_last() + pids_of(procs, step.0), step.1)
        }
    }
}

/// One step of the walk: the scan for the children of the last pid of `queue`, then the
/// walk on; nothing once `queue` is empty.
pub proof fn lemma_walk_below_step(procs: Seq<WindowsCodexProcess>, queue: Seq<u32>, seen: Set<u32>)
    requires
        seen.finite(),
    ensures
        queue.len() == 0 ==> walk_below(procs, queue, seen) == Seq::<int>::empty(),
        queue.len() > 0 ==> walk_below(procs, queue, seen) == scan_children(procs, queue.last(), 0, seen).0
            + walk_below(
            procs,
            queue.drop_last() + pids_of(procs, scan_children(procs, queue.last(), 0, seen).0),
            scan_children(procs, queue.last(), 0, seen).1,
        ),
{
    reveal(walk_below);
    if queue.len() > 0 {
        let step = scan_children(procs, queue.last(), 0, seen);
        lemma_scan_children(procs, queue.last(), 0, seen);
        if step.0.len() == 0 {
            assert(queue.drop_last() + pids_of(procs, step.0) =~= queue.drop_last());
            assert(step.0 + walk_below(procs, queue.drop_last(), seen) =~= walk_below(procs, queue.drop_last(), seen));
        }
    }
}

/// The entries that the search below `root` examines, in order, when none matches:
/// each pid below `root` once, through the first entry with that pid that the walk
/// reaches.
pub open spec fn descendant_walk(procs: Seq<WindowsCodexProcess>, root: u32) -> Seq<int> {
    walk_below(procs, seq![root], Set::empty())
}

/// Every entry below `root` has its pid in `v`, when `v` holds each child pid of `root`
/// and of each of its own members.
proof fn lemma_closed_holds_below(procs: Seq<WindowsCodexProcess>, root: u32, v: Set<u32>, e: int)
    requires
        below(procs, root, e),
        forall|j: int| 0 <= j < procs.len() && #[trigger] procs[j].parent_process_id == root ==> v.contains(procs[j].process_id),
        forall|u: u32, j: int|
            #![trigger v.contains(u), procs[j]]
            v.contains(u) && 0 <= j < procs.len() && procs[j].parent_process_id == u ==> v.contains(
                procs[j].process_id,
            ),
    ensures
        v.contains(procs[e].process_id),
{
    let path = choose|path: Seq<int>| #[trigger] chain_below(procs, root, path) && path.last() == e;
    lemma_chain_in(procs, root, v, path, path.len() - 1);
}

proof fn lemma_chain_in(procs: Seq<WindowsCodexProcess>, root: u32, v: Set<u32>, path: Seq<int>, k: int)
    requires
        chain_below(procs, root, path),
        0 <= k < path.len(),
        forall|j: int| 0 <= j < procs.len() && #[trigger] procs[j].parent_process_id == root ==> v.contains(procs[j].process_id),
        forall|u: u32, j: int|
            #![trigger v.contains(u), procs[j]]
            v.contains(u) && 0 <= j < procs.len() && procs[j].parent_process_id == u ==> v.contains(
                procs[j].process_id,
            ),
    ensures
        v.contains(procs[path[k]].process_id),
    decreases k,
{
    assert(0 <= path[k] < procs.len());
    if k == 0 {
        assert(procs[path[0]].parent_process_id == root);
    } else {
        lemma_chain_in(procs, root, v, path, k - 1);
        assert(0 <= path[k - 1] < procs.len());
        assert(procs[path[k]].parent_process_id == procs[path[k - 1]].process_id);
    }
}

/// Whether some process below `root_pid` satisfies `predicate`. The tree is walked from
/// `root_pid` (see `descendant_walk`); each pid is examined once, through the first
/// entry with that pid that the walk reaches, and the search stops at the first match.
pub fn windows_has_descendant_matching<F: Fn(&WindowsCodexProcess) -> bool>(
    root_pid: u32,
    processes: &[WindowsCodexProcess],
    predicate: F,
) -> (r: bool)
    requires
        forall|p: &WindowsCodexProcess| #[trigger] predicate.requires((p,)),
    ensures
        r ==> exists|e: int|
            #[trigger] below(processes@, root_pid, e) && predicate.ensures((&processes@[e],), true),
        !r ==> forall|x: u32|
            #[trigger] pid_below(processes@, root_pid, x) ==> exists|e: int|
                #[trigger] below(processes@, root_pid, e) && processes@[e].process_id == x
                    && predicate.ensures((&processes@[e],), false),
        r ==> exists|k: int|
            #![trigger descendant_walk(processes@, root_pid)[k]]
            0 <= k < descendant_walk(processes@, root_pid).len() && predicate.ensures(
                (&processes@[descendant_walk(processes@, root_pid)[k]],),
                true,
            ),
        !r ==> forall|k: int|
            #![trigger descendant_walk(processes@, root_pid)[k]]
            0 <= k < descendant_walk(processes@, root_pid).len() ==> predicate.ensures(
                (&processes@[descendant_walk(processes@, root_pid)[k]],),
                false,
            ),
{
    let ghost procs = processes@;
    let mut queue: Vec<u32> = Vec::new();
    queue.push(root_pid);
    let mut visited: HashSet<u32> = HashSet::new();
    let ghost mut order: Seq<u32> = Seq::empty();
    assert(visited@ =~= order.to_set());
    assert(queue@[0] == root_pid);
    let ghost full = descendant_walk(procs, root_pid);
    let ghost mut examined: Seq<int> = Seq::empty();
    assert(queue@ =~= seq![root_pid]);
    assert(visited@ =~= Set::<u32>::empty());
    assert(full =~= examined + walk_below(procs, queue@, visited@));
    while queue.len() > 0
        invariant
            full == descendant_walk(procs, root_pid),
            full == examined + walk_below(procs, queue@, visited@),
            forall|k: int| 0 <= k < examined.len() ==> predicate.ensures((&procs[#[trigger] examined[k]],), false),
            procs == processes@,
            forall|p: &WindowsCodexProcess| #[trigger] predicate.requires((p,)),
            visited@ == order.to_set(),
            forall|q: u32| #[trigger] queue@.contains(q) ==> q == root_pid || visited@.contains(q),
            forall|v: u32|
                #[trigger] visited@.contains(v) ==> exists|e: int|
                    #[trigger] below(procs, root_pid, e) && procs[e].process_id == v
                        && predicate.ensures((&procs[e],), false),
            !queue@.contains(root_pid) ==> forall|j: int|
                0 <= j < procs.len() && #[trigger] procs[j].parent_process_id == root_pid
                    ==> visited@.contains(procs[j].process_id),
            forall|u: u32, j: int|
                #![trigger visited@.contains(u), procs[j]]
                visited@.contains(u) && !queue@.contains(u) && 0 <= j < procs.len()
                    && procs[j].parent_process_id == u ==> visited@.contains(procs[j].process_id),
        decreases 0x1_0000_0000 - visited@.len(), queue@.len(),
    {
        let ghost old_queue = queue@;
        let ghost old_len = visited@.len();
        let parent = queue.pop().unwrap();
        proof {
            assert(old_queue =~= queue@.push(parent));
            assert(old_queue.contains(parent));
            assert forall|q: u32| #[trigger] queue@.contains(q) implies old_queue.contains(q) by {
                let k = choose|k: int| 0 <= k < queue@.len() && queue@[k] == q;
                assert(old_queue[k] == q);
            }
            vstd::seq_lib::seq_to_set_is_finite(order);
        }
        let ghost popped_queue = queue@;
        let ghost vis0 = visited@;
        let ghost ex0 = examined;
        let ghost mut ex_scan: Seq<int> = Seq::empty();
        assert(scan_children(procs, parent, 0, vis0).0 =~= ex_scan + scan_children(procs, parent, 0, vis0).0);
        assert(pids_of(procs, ex_scan) =~= Seq::<u32>::empty());
        assert(queue@ =~= popped_queue + pids_of(procs, ex_scan));
        assert(examined =~= ex0 + ex_scan);
        let mut j: usize = 0;
        while j < processes.len()
            invariant
                full == descendant_walk(procs, root_pid),
                full == ex0 + walk_below(procs, old_queue, vis0),
                vis0.finite(),
                scan_children(procs, parent, 0, vis0) == (
                    ex_scan + scan_children(procs, parent, j as int, visited@).0,
                    scan_children(procs, parent, j as int, visited@).1,
                ),
                queue@ == popped_queue + pids_of(procs, ex_scan),
                examined == ex0 + ex_scan,
                forall|k: int| 0 <= k < examined.len() ==> predicate.ensures((&procs[#[trigger] examined[k]],), false),
                procs == processes@,
                forall|p: &WindowsCodexProcess| #[trigger] predicate.requires((p,)),
                parent == root_pid || visited@.contains(parent),
                visited@ == order.to_set(),
                visited@.len() >= old_len,
                visited@.len() == old_len ==> queue@ == popped_queue,
                forall|q: u32| #[trigger] popped_queue.contains(q) ==> queue@.contains(q),
                forall|q: u32| #[trigger] queue@.contains(q) ==> q == root_pid || visited@.contains(q),
                forall|v: u32|
                    #[trigger] visited@.contains(v) ==> exists|e: int|
                        #[trigger] below(procs, root_pid, e) && procs[e].process_id == v
                            && predicate.ensures((&procs[e],), false),
                old_queue == popped_queue.push(parent),
                !queue@.contains(root_pid) && root_pid != parent ==> forall|k: int|
                    0 <= k < procs.len() && #[trigger] procs[k].parent_process_id == root_pid
                        ==> visited@.contains(procs[k].process_id),
                forall|u: u32, k: int|
                    #![trigger visited@.contains(u), procs[k]]
                    visited@.contains(u) && !queue@.contains(u) && u != parent && 0 <= k < procs.len()
                        && procs[k].parent_process_id == u ==> visited@.contains(procs[k].process_id),
                forall|k: int|
                    0 <= k < j && #[trigger] procs[k].parent_process_id == parent ==> visited@.contains(
                        procs[k].process_id,
                    ),
                j <= processes.len(),
            decreases processes.len() - j,
        {
            let process = &processes[j];
            let ghost vis_j = visited@;
            if process.parent_process_id == parent {
                let ghost before = visited@;
                let pid = process.process_id;
                if visited.insert(pid) {
                    proof {
                        let old_order = order;
                        vstd::seq_lib::seq_to_set_is_finite(old_order);
                        order = old_order.push(pid);
                        old_order.lemma_push_to_set_commute(pid);
                        assert(visited@.len() == before.len() + 1);
                    }
                    let hit = predicate(process);
                    proof {
                        if parent == root_pid {
                            lemma_below_child(procs, root_pid, j as int);
                        } else {
                            let e = choose|e: int|
                                #[trigger] below(procs, root_pid, e) && procs[e].process_id == parent
                                    && predicate.ensures((&procs[e],), false);
                            lemma_below_extend(procs, root_pid, e, j as int);
                        }
                    }
                    proof {
                        let rest = scan_children(procs, parent, j + 1, visited@);
                        assert(scan_children(procs, parent, j as int, vis_j) == (seq![j as int] + rest.0, rest.1));
                        let sc = scan_children(procs, parent, 0, vis0);
                        assert(sc.0 =~= ex_scan.push(j as int) + rest.0);
                        assert(sc.0[ex_scan.len() as int] == j as int);
                        assert(old_queue.last() == parent);
                        assert(old_queue.drop_last() == popped_queue);
                        lemma_walk_below_step(procs, old_queue, vis0);
                        assert(full[(ex0.len() + ex_scan.len()) as int] == j as int);
                    }
                    if hit {
                        return true;
                    }
                    let ghost q_before = queue@;
                    queue.push(pid);
                    proof {
                        let rest = scan_children(procs, parent, j + 1, visited@);
                        assert(ex_scan + (seq![j as int] + rest.0) =~= ex_scan.push(j as int) + rest.0);
                        assert(pids_of(procs, ex_scan.push(j as int)) =~= pids_of(procs, ex_scan).push(pid));
                        ex_scan = ex_scan.push(j as int);
                        examined = examined.push(j as int);
                        assert(examined =~= ex0 + ex_scan);
                        assert(queue@ =~= popped_queue + pids_of(procs, ex_scan));
                        assert forall|q: u32| q_before.contains(q) implies #[trigger] queue@.contains(q) by {
                            let k = choose|k: int| 0 <= k < q_before.len() && q_before[k] == q;
                            assert(queue@[k] == q);
                        }
                        assert forall|q: u32| #[trigger] queue@.contains(q) implies q_before.contains(q) || q == pid by {
                            let k = choose|k: int| 0 <= k < queue@.len() && queue@[k] == q;
                            if k < q_before.len() {
                                assert(q_before[k] == q);
                            }
                        }
                        assert(queue@[queue@.len() - 1] == pid);
                        vstd::seq_lib::seq_to_set_is_finite(order);
                        lemma_u32_set_len(visited@);
                    }
                } else {
                    assert(visited@ =~= vis_j);
                }
            }
            j = j + 1;
        }
        proof {
            let sc = scan_children(procs, parent, 0, vis0);
            assert(sc.0 =~= ex_scan);
            assert(old_queue.last() == parent);
            assert(old_queue.drop_last() == popped_queue);
            lemma_walk_below_step(procs, old_queue, vis0);
            assert(full =~= examined + walk_below(procs, queue@, visited@));
        }
        proof {
            assert forall|q: u32| old_queue.contains(q) && q != parent implies #[trigger] queue@.contains(q) by {
                let k = choose|k: int| 0 <= k < old_queue.len() && old_queue[k] == q;
                assert(popped_queue[k] == q);
                assert(popped_queue.contains(q));
            }
            vstd::seq_lib::seq_to_set_is_finite(order);
            lemma_u32_set_len(visited@);
        }
    }
    proof {
        assert forall|x: u32| #[trigger] pid_below(procs, root_pid, x) implies exists|e: int|
            #[trigger] below(procs, root_pid, e) && procs[e].process_id == x && predicate.ensures(
                (&procs[e],),
                false,
            ) by {
            let e = choose|e: int| #[trigger] below(procs, root_pid, e) && procs[e].process_id == x;
            lemma_closed_holds_below(procs, root_pid, visited@, e);
        }
        vstd::seq_lib::seq_to_set_is_finite(order);
        lemma_walk_below_step(procs, queue@, visited@);
        assert(full =~= examined);
    }
    false
}


/// The process has a main window with a non-blank title.
pub open spec fn window_shown(p: WindowsCodexProcess) -> bool {
    trim(p.main_window_title@).len() > 0
}

/// A child process that shows the app is alive: an Electron renderer, or (when
/// `app_server`) the bundled CLI running as app server.
pub open spec fn live_child(c: WindowsCodexProcess, app_server: bool) -> bool {
    let command = ascii_lower(c.command_line@);
    if app_server {
        has_sub(command, "resources\\codex.exe"@) && has_sub(command, "app-server"@)
    } else {
        has_sub(command, "--type=renderer"@)
    }
}

/// Some process below `root` is a live child of that kind.
pub open spec fn some_live_child(procs: Seq<WindowsCodexProcess>, root: u32, app_server: bool) -> bool {
    exists|e: int| #[trigger] below(procs, root, e) && live_child(procs[e], app_server)
}

/// For some pid below `root`, every entry with that pid is a live child of that kind.
pub open spec fn surely_live_child(procs: Seq<WindowsCodexProcess>, root: u32, app_server: bool) -> bool {
    exists|x: u32|
        #[trigger] pid_below(procs, root, x) && forall|e: int|
            #[trigger] below(procs, root, e) && procs[e].process_id == x ==> live_child(procs[e], app_server)
}

/// `active` is a verdict that agrees with the process tree for entry `i`: active only
/// when the window is shown or some entry below is a live child, and active whenever the
/// window is shown or, for some pid below, every entry with that pid is a live child.
/// When no two entries share a pid, this fixes the verdict (see `unique_pids_fix_verdict`).
pub open spec fn verdict_allowed(procs: Seq<WindowsCodexProcess>, i: int, active: bool) -> bool {
    let p = procs[i];
    &&& active ==> window_shown(p) || some_live_child(procs, p.process_id, false)
        || some_live_child(procs, p.process_id, true)
    &&& window_shown(p) || surely_live_child(procs, p.process_id, false) || surely_live_child(
        procs,
        p.process_id,
        true,
    ) ==> active
}

/// A live child of that kind is among the entries that the search below `root` examines.
pub open spec fn walk_finds(procs: Seq<WindowsCodexProcess>, root: u32, app_server: bool) -> bool {
    exists|k: int|
        #![trigger descendant_walk(procs, root)[k]]
        0 <= k < descendant_walk(procs, root).len() && live_child(
            procs[descendant_walk(procs, root)[k]],
            app_server,
        )
}

/// The verdict on entry `i`: active when its window is shown, or the search below it
/// finds a renderer or an app server.
pub open spec fn windows_verdict(procs: Seq<WindowsCodexProcess>, i: int) -> bool {
    let p = procs[i];
    window_shown(p) || walk_finds(procs, p.process_id, false) || walk_finds(procs, p.process_id, true)
}

/// Active pids and ignored count over the first `n` entries of `procs`: top-level
/// entries that are editor plugins or not active are ignored, the others are active.
pub open spec fn windows_tally(procs: Seq<WindowsCodexProcess>, n: int) -> (Set<u32>, nat)
    decreases n,
{
    if n <= 0 {
        (Set::empty(), 0)
    } else {
        let prev = windows_tally(procs, n - 1);
        let p = procs[n - 1];
        if !is_windows_root(p) {
            prev
        } else if is_ide_plugin(ascii_lower(p.command_line@)) || !windows_verdict(procs, n - 1) {
            (prev.0, prev.1 + 1)
        } else {
            (prev.0.insert(p.process_id), prev.1)
        }
    }
}

/// Whether a child process is an Electron renderer.
fn is_renderer_child(c: &WindowsCodexProcess) -> (r: bool)
    ensures
        r == live_child(*c, false),
{
    let command = lowercase(&chars_of(c.command_line.as_str()));
    contains_str(&command, "--type=renderer")
}

/// Whether a child process is the bundled CLI running as app server.
fn is_app_server_child(c: &WindowsCodexProcess) -> (r: bool)
    ensures
        r == live_child(*c, true),
{
    let command = lowercase(&chars_of(c.command_line.as_str()));
    contains_str(&command, "resources\\codex.exe") && contains_str(&command, "app-server")
}

/// Finds the live Codex app instances: top-level Codex processes that are not editor
/// plugins and have a window, a renderer below them, or an app server below them.
/// Returns their pids, sorted and each once, and the number of ignored top-level
/// processes (plugins, and stale trees left after the window closed).
pub fn classify_windows_codex_processes(processes: &Vec<WindowsCodexProcess>) -> (r: (Vec<u32>, usize))
    ensures
        strictly_increasing(r.0@),
        (r.0@.to_set(), r.1 as nat) == windows_tally(processes@, processes@.len() as int),
        forall|i: int|
            0 <= i < processes@.len() && is_windows_root(processes@[i]) && !is_ide_plugin(
                ascii_lower(processes@[i].command_line@),
            ) ==> verdict_allowed(processes@, i, #[trigger] windows_verdict(processes@, i)),
        distinct_pids(processes@) ==> forall|i: int|
            0 <= i < processes@.len() && is_windows_root(processes@[i]) && !is_ide_plugin(
                ascii_lower(processes@[i].command_line@),
            ) ==> (#[trigger] windows_verdict(processes@, i) <==> window_shown(processes@[i])
                || some_live_child(processes@, processes@[i].process_id, false) || some_live_child(
                processes@,
                processes@[i].process_id,
                true,
            )),
        forall|i: int|
            0 <= i < processes@.len() && is_windows_root(processes@[i]) && !is_ide_plugin(
                ascii_lower(processes@[i].command_line@),
            ) && #[trigger] windows_verdict(processes@, i) ==> r.0@.contains(processes@[i].process_id),
        distinct_pids(processes@) ==> forall|i: int, j: int|
            #![trigger processes@[i], processes@[j]]
            0 <= i < processes@.len() && 0 <= j < processes@.len() && is_windows_root(processes@[i])
                && !is_ide_plugin(ascii_lower(processes@[i].command_line@))
                && processes@[j].parent_process_id == processes@[i].process_id && has_sub(
                ascii_lower(processes@[j].command_line@),
                "--type=renderer"@,
            ) ==> r.0@.contains(processes@[i].process_id),
{
    let ghost procs = processes@;
    let mut active_pids: Vec<u32> = Vec::new();
    let mut ignored: usize = 0;
    let mut i: usize = 0;
    assert(active_pids@.to_set() =~= Set::<u32>::empty());
    while i < processes.len()
        invariant
            procs == processes@,
            i <= processes.len(),
            ignored <= i,
            forall|k: int|
                0 <= k < i && is_windows_root(procs[k]) && !is_ide_plugin(ascii_lower(procs[k].command_line@))
                    ==> verdict_allowed(procs, k, #[trigger] windows_verdict(procs, k)),
            distinct_pids(procs) ==> forall|k: int|
                0 <= k < i && is_windows_root(procs[k]) && !is_ide_plugin(ascii_lower(procs[k].command_line@))
                    ==> (#[trigger] windows_verdict(procs, k) <==> window_shown(procs[k]) || some_live_child(
                    procs,
                    procs[k].process_id,
                    false,
                ) || some_live_child(procs, procs[k].process_id, true)),
            strictly_increasing(active_pids@),
            (active_pids@.to_set(), ignored as nat) == windows_tally(procs, i as int),
        decreases processes.len() - i,
    {
        let process = &processes[i];
        if is_windows_codex_root_process(process) {
            let command = lowercase(&chars_of(process.command_line.as_str()));
            if is_ide_plugin_chars(&command) {
                ignored = ignored + 1;
            } else {
                let title = trim_chars(&chars_of(process.main_window_title.as_str()));
                let has_window = title.len() > 0;
                let has_renderer = windows_has_descendant_matching(
                    process.process_id,
                    processes.as_slice(),
                    is_renderer_child,
                );
                let has_app_server = windows_has_descendant_matching(
                    process.process_id,
                    processes.as_slice(),
                    is_app_server_child,
                );
                let verdict = has_window || has_renderer || has_app_server;
                proof {
                    let pp = process.process_id;
                    let w = descendant_walk(procs, pp);
                    if has_renderer {
                        let e = choose|e: int|
                            #[trigger] below(procs, pp, e) && is_renderer_child.ensures((&procs[e],), true);
                        assert(live_child(procs[e], false));
                        let k = choose|k: int|
                            #![trigger w[k]]
                            0 <= k < w.len() && is_renderer_child.ensures((&procs[w[k]],), true);
                        assert(live_child(procs[w[k]], false));
                    } else {
                        assert forall|k: int| #![trigger w[k]] 0 <= k < w.len() implies !live_child(procs[w[k]], false) by {
                            assert(is_renderer_child.ensures((&procs[w[k]],), false));
                        }
                        if surely_live_child(procs, pp, false) {
                            let x = choose|x: u32|
                                #[trigger] pid_below(procs, pp, x) && forall|e: int|
                                    #[trigger] below(procs, pp, e) && procs[e].process_id == x ==> live_child(procs[e], false);
                            let e = choose|e: int|
                                #[trigger] below(procs, pp, e) && procs[e].process_id == x
                                    && is_renderer_child.ensures((&procs[e],), false);
                            assert(live_child(procs[e], false));
                        }
                    }
                    if has_app_server {
                        let e = choose|e: int|
                            #[trigger] below(procs, pp, e) && is_app_server_child.ensures((&procs[e],), true);
                        assert(live_child(procs[e], true));
                        let k = choose|k: int|
                            #![trigger w[k]]
                            0 <= k < w.len() && is_app_server_child.ensures((&procs[w[k]],), true);
                        assert(live_child(procs[w[k]], true));
                    } else {
                        assert forall|k: int| #![trigger w[k]] 0 <= k < w.len() implies !live_child(procs[w[k]], true) by {
                            assert(is_app_server_child.ensures((&procs[w[k]],), false));
                        }
                        if surely_live_child(procs, pp, true) {
                            let x = choose|x: u32|
                                #[trigger] pid_below(procs, pp, x) && forall|e: int|
                                    #[trigger] below(procs, pp, e) && procs[e].process_id == x ==> live_child(procs[e], true);
                            let e = choose|e: int|
                                #[trigger] below(procs, pp, e) && procs[e].process_id == x
                                    && is_app_server_child.ensures((&procs[e],), false);
                            assert(live_child(procs[e], true));
                        }
                    }
                    assert(has_window == window_shown(procs[i as int]));
                    assert(verdict == windows_verdict(procs, i as int));
                    assert(verdict_allowed(procs, i as int, verdict));
                    if distinct_pids(procs) {
                        unique_pids_fix_verdict(procs, pp, false);
                        unique_pids_fix_verdict(procs, pp, true);
                    }
                }
                if verdict {
                    insert_pid_sorted(&mut active_pids, process.process_id);
                } else {
                    ignored = ignored + 1;
                }
            }
        }
        i = i + 1;
    }
    proof {
        assert forall|k: int|
            0 <= k < procs.len() && is_windows_root(procs[k]) && !is_ide_plugin(ascii_lower(procs[k].command_line@))
                && #[trigger] windows_verdict(procs, k) implies active_pids@.contains(procs[k].process_id) by {
            lemma_tally_keeps_active(procs, k, procs.len() as int);
            assert(active_pids@.to_set().contains(procs[k].process_id));
        }
        if distinct_pids(procs) {
            assert forall|k: int, j: int|
                #![trigger procs[k], procs[j]]
                0 <= k < procs.len() && 0 <= j < procs.len() && is_windows_root(procs[k]) && !is_ide_plugin(
                    ascii_lower(procs[k].command_line@),
                ) && procs[j].parent_process_id == procs[k].process_id && has_sub(
                    ascii_lower(procs[j].command_line@),
                    "--type=renderer"@,
                ) implies active_pids@.contains(procs[k].process_id) by {
                renderer_child_keeps_instance_live(procs, procs[k].process_id, j);
                assert(verdict_allowed(procs, k, windows_verdict(procs, k)));
                lemma_tally_keeps_active(procs, k, procs.len() as int);
                assert(active_pids@.to_set().contains(procs[k].process_id));
            }
        }
    }
    (active_pids, ignored)
}


/// No two entries share a process id.
pub open spec fn distinct_pids(procs: Seq<WindowsCodexProcess>) -> bool {
    forall|i: int, j: int| 0 <= i < j < procs.len() ==> procs[i].process_id != procs[j].process_id
}

/// When no two entries share a pid, a live child is found exactly when one exists, so
/// the verdict on every top-level process is determined.
pub proof fn unique_pids_fix_verdict(procs: Seq<WindowsCodexProcess>, root: u32, app_server: bool)
    requires
        distinct_pids(procs),
    ensures
        some_live_child(procs, root, app_server) == surely_live_child(procs, root, app_server),
{
    if surely_live_child(procs, root, app_server) {
        let x = choose|x: u32|
            #[trigger] pid_below(procs, root, x) && forall|e: int|
                #[trigger] below(procs, root, e) && procs[e].process_id == x ==> live_child(procs[e], app_server);
        let e = choose|e: int| #[trigger] below(procs, root, e) && procs[e].process_id == x;
        assert(live_child(procs[e], app_server));
    }
    if some_live_child(procs, root, app_server) {
        let e = choose|e: int| #[trigger] below(procs, root, e) && live_child(procs[e], app_server);
        let x = procs[e].process_id;
        lemma_below_in_range(procs, root, e);
        assert(pid_below(procs, root, x));
        assert forall|e2: int| #[trigger] below(procs, root, e2) && procs[e2].process_id == x implies live_child(
            procs[e2],
            app_server,
        ) by {
            lemma_below_in_range(procs, root, e2);
            if e2 != e {
                if e2 < e {
                    assert(procs[e2].process_id != procs[e].process_id);
                } else {
                    assert(procs[e].process_id != procs[e2].process_id);
                }
            }
        }
    }
}

/// A child whose lower-cased command line contains `--type=renderer` anywhere (real
/// renderers carry further flags after it) keeps its parent's app instance live: some
/// process below the parent is a renderer, and when no two entries share a pid, the
/// renderer is found whatever entry order the walk takes (so the instance is active, by
/// the contract of `classify_windows_codex_processes`).
pub proof fn renderer_child_keeps_instance_live(procs: Seq<WindowsCodexProcess>, root: u32, j: int)
    requires
        0 <= j < procs.len(),
        procs[j].parent_process_id == root,
        has_sub(ascii_lower(procs[j].command_line@), "--type=renderer"@),
    ensures
        some_live_child(procs, root, false),
        distinct_pids(procs) ==> surely_live_child(procs, root, false),
{
    lemma_below_child(procs, root, j);
    assert(live_child(procs[j], false));
    if distinct_pids(procs) {
        unique_pids_fix_verdict(procs, root, false);
    }
}

/// Likewise a child whose lower-cased command line contains both `resources\codex.exe`
/// and `app-server`, anywhere, is a live app server below its parent.
pub proof fn app_server_child_keeps_instance_live(procs: Seq<WindowsCodexProcess>, root: u32, j: int)
    requires
        0 <= j < procs.len(),
        procs[j].parent_process_id == root,
        has_sub(ascii_lower(procs[j].command_line@), "resources\\codex.exe"@),
        has_sub(ascii_lower(procs[j].command_line@), "app-server"@),
    ensures
        some_live_child(procs, root, true),
        distinct_pids(procs) ==> surely_live_child(procs, root, true),
{
    lemma_below_child(procs, root, j);
    assert(live_child(procs[j], true));
    if distinct_pids(procs) {
        unique_pids_fix_verdict(procs, root, true);
    }
}

/// A top-level, non-plugin entry judged active is among the active pids of every longer
/// prefix.
proof fn lemma_tally_keeps_active(procs: Seq<WindowsCodexProcess>, i: int, n: int)
    requires
        0 <= i < n <= procs.len(),
        is_windows_root(procs[i]),
        !is_ide_plugin(ascii_lower(procs[i].command_line@)),
        windows_verdict(procs, i),
    ensures
        windows_tally(procs, n).0.contains(procs[i].process_id),
    decreases n,
{
    if n - 1 > i {
        lemma_tally_keeps_active(procs, i, n - 1);
    }
}

proof fn lemma_below_in_range(procs: Seq<WindowsCodexProcess>, root: u32, e: int)
    requires
        below(procs, root, e),
    ensures
        0 <= e < procs.len(),
{
    let path = choose|path: Seq<int>| #[trigger] chain_below(procs, root, path) && path.last() == e;
    assert(0 <= path[path.len() - 1] < procs.len());
}

} // verus!
