//! Decisions of force-closing the active Codex sessions: which processes need the
//! administrator path, how the outcomes are recorded, and how the tools' output is read.
use vstd::prelude::*;

use crate::pid_set::{
    contains_pid, first_occurrences_outside, insert_pid_sorted, lemma_first_occurrences_distinct,
    lemma_first_occurrences_outside, strictly_increasing,
};
use crate::snapshot::UnixProcessSnapshot;
use crate::text::{
    decimal_reads_back, is_digit, is_ws, words_of_join, append_decimal, chars_of, contains_chars, equals_chars, decimal, has_sub, join, parse_u32, parse_u32_chars,
    push_decimal, split_words, trim, trim_chars, views, words,
};

verus! {

broadcast use vstd::std_specs::hash::group_hash_axioms;

/// `pid` is owned by a user other than the current one, as far as both are known; such
/// processes go to the administrator path when `escalate_foreign` is set (macOS).
pub open spec fn needs_admin(
    snapshot: Option<&UnixProcessSnapshot>,
    current_uid: Option<u32>,
    escalate_foreign: bool,
    pid: u32,
) -> bool {
    &&& escalate_foreign
    &&& snapshot is Some
    &&& current_uid is Some
    &&& snapshot->0.uid_by_pid@.contains_key(pid)
    &&& snapshot->0.uid_by_pid@[pid] != current_uid->0
}

/// The entries of `targets` for which `needs_admin` is `admin`, in order.
pub open spec fn targets_where(
    targets: Seq<u32>,
    snapshot: Option<&UnixProcessSnapshot>,
    current_uid: Option<u32>,
    escalate_foreign: bool,
    admin: bool,
) -> Seq<u32>
    decreases targets.len(),
{
    if targets.len() == 0 {
        Seq::empty()
    } else {
        let prev = targets_where(targets.drop_last(), snapshot, current_uid, escalate_foreign, admin);
        if needs_admin(snapshot, current_uid, escalate_foreign, targets.last()) == admin {
            prev.push(targets.last())
        } else {
            prev
        }
    }
}

/// The processes to signal directly, and those to leave to the administrator path.
pub struct KillPlan {
    pub direct: Vec<u32>,
    pub escalated: Vec<u32>,
}

/// Splits the processes to close into those this user may signal and those that need
/// administrator rights, keeping their order.
pub fn plan_kill(
    targets: &Vec<u32>,
    snapshot: Option<&UnixProcessSnapshot>,
    current_uid: Option<u32>,
    escalate_foreign: bool,
) -> (plan: KillPlan)
    ensures
        plan.direct@ == targets_where(targets@, snapshot, current_uid, escalate_foreign, false),
        plan.escalated@ == targets_where(targets@, snapshot, current_uid, escalate_foreign, true),
{
    let mut direct: Vec<u32> = Vec::new();
    let mut escalated: Vec<u32> = Vec::new();
    let mut i: usize = 0;
    while i < targets.len()
        invariant
            i <= targets.len(),
            direct@ == targets_where(targets@.take(i as int), snapshot, current_uid, escalate_foreign, false),
            escalated@ == targets_where(targets@.take(i as int), snapshot, current_uid, escalate_foreign, true),
        decreases targets.len() - i,
    {
        let pid = targets[i];
        let foreign = match snapshot {
            Some(s) => match (s.uid_by_pid.get(&pid), current_uid) {
                (Some(owner), Some(current)) => escalate_foreign && *owner != current,
                _ => false,
            },
            None => false,
        };
        proof {
            assert(targets@.take(i + 1).drop_last() =~= targets@.take(i as int));
            assert(foreign == needs_admin(snapshot, current_uid, escalate_foreign, pid));
        }
        if foreign {
            escalated.push(pid);
        } else {
            direct.push(pid);
        }
        i = i + 1;
    }
    assert(targets@.take(targets.len() as int) =~= targets@);
    KillPlan { direct, escalated }
}

/// The entries of `pids` whose outcome is `want`, in order.
pub open spec fn with_outcome(pids: Seq<u32>, outcomes: Seq<bool>, want: bool) -> Seq<u32>
    decreases pids.len(),
{
    if pids.len() == 0 {
        Seq::empty()
    } else {
        let prev = with_outcome(pids.drop_last(), outcomes, want);
        if outcomes[pids.len() - 1] == want {
            prev.push(pids.last())
        } else {
            prev
        }
    }
}

/// Sorts the signalled processes by whether the signal took effect:
/// `(succeeded, failed)`, each in the order of `pids`.
pub fn record_kill_outcomes(pids: &Vec<u32>, succeeded: &Vec<bool>) -> (r: (Vec<u32>, Vec<u32>))
    requires
        pids.len() == succeeded.len(),
    ensures
        r.0@ == with_outcome(pids@, succeeded@, true),
        r.1@ == with_outcome(pids@, succeeded@, false),
{
    let mut killed: Vec<u32> = Vec::new();
    let mut failed: Vec<u32> = Vec::new();
    let mut i: usize = 0;
    while i < pids.len()
        invariant
            i <= pids.len(),
            pids.len() == succeeded.len(),
            killed@ == with_outcome(pids@.take(i as int), succeeded@, true),
            failed@ == with_outcome(pids@.take(i as int), succeeded@, false),
        decreases pids.len() - i,
    {
        assert(pids@.take(i + 1).drop_last() =~= pids@.take(i as int));
        if succeeded[i] {
            killed.push(pids[i]);
        } else {
            failed.push(pids[i]);
        }
        i = i + 1;
    }
    assert(pids@.take(pids.len() as int) =~= pids@);
    (killed, failed)
}

/// The processes to hand to the administrator path: those that need it and those whose
/// direct signal failed, sorted and each once.
pub fn admin_retry_targets(escalated: &Vec<u32>, failed: &Vec<u32>) -> (r: Vec<u32>)
    ensures
        strictly_increasing(r@),
        r@.to_set() == escalated@.to_set().union(failed@.to_set()),
{
    let mut r: Vec<u32> = Vec::new();
    let mut i: usize = 0;
    assert(r@.to_set() =~= escalated@.take(0).to_set());
    while i < escalated.len()
        invariant
            i <= escalated.len(),
            strictly_increasing(r@),
            r@.to_set() == escalated@.take(i as int).to_set(),
        decreases escalated.len() - i,
    {
        insert_pid_sorted(&mut r, escalated[i]);
        i = i + 1;
        assert(escalated@.take(i as int) =~= escalated@.take(i - 1).push(escalated@[i - 1]));
        proof {
            escalated@.take(i - 1).lemma_push_to_set_commute(escalated@[i - 1]);
        }
    }
    assert(escalated@.take(i as int) =~= escalated@);
    let mut j: usize = 0;
    assert(failed@.take(0).to_set() =~= Set::<u32>::empty());
    while j < failed.len()
        invariant
            j <= failed.len(),
            strictly_increasing(r@),
            r@.to_set() == escalated@.to_set().union(failed@.take(j as int).to_set()),
        decreases failed.len() - j,
    {
        insert_pid_sorted(&mut r, failed[j]);
        j = j + 1;
        assert(failed@.take(j as int) =~= failed@.take(j - 1).push(failed@[j - 1]));
        proof {
            failed@.take(j - 1).lemma_push_to_set_commute(failed@[j - 1]);
        }
        assert(r@.to_set() =~= escalated@.to_set().union(failed@.take(j as int).to_set()));
    }
    assert(failed@.take(j as int) =~= failed@);
    r
}

/// After the administrator attempt on `targets` (which `still_running` says are still
/// there afterwards): the pids reported killed and those reported failed. Targets that
/// are still running failed; when the attempt itself succeeded, the others join the
/// killed ones unless already there.
pub fn settle_admin_kill(
    targets: &Vec<u32>,
    admin_succeeded: bool,
    still_running: &Vec<bool>,
    killed: Vec<u32>,
) -> (r: (Vec<u32>, Vec<u32>))
    requires
        targets.len() == still_running.len(),
    ensures
        r.1@ == with_outcome(targets@, still_running@, true),
        r.0@ == if admin_succeeded {
            killed@ + first_occurrences_outside(
                with_outcome(targets@, still_running@, false),
                killed@.to_set(),
            )
        } else {
            killed@
        },
{
    let ghost killed_before = killed@;
    let mut killed = killed;
    let mut still_failed: Vec<u32> = Vec::new();
    let mut i: usize = 0;
    assert(killed_before + Seq::<u32>::empty() =~= killed_before);
    while i < targets.len()
        invariant
            i <= targets.len(),
            targets.len() == still_running.len(),
            still_failed@ == with_outcome(targets@.take(i as int), still_running@, true),
            killed@ == if admin_succeeded {
                killed_before + first_occurrences_outside(
                    with_outcome(targets@.take(i as int), still_running@, false),
                    killed_before.to_set(),
                )
            } else {
                killed_before
            },
        decreases targets.len() - i,
    {
        let pid = targets[i];
        let ghost gone_before = with_outcome(targets@.take(i as int), still_running@, false);
        let ghost added = first_occurrences_outside(gone_before, killed_before.to_set());
        assert(targets@.take(i + 1).drop_last() =~= targets@.take(i as int));
        if still_running[i] {
            still_failed.push(pid);
        } else if admin_succeeded {
            let ghost gone = with_outcome(targets@.take(i + 1), still_running@, false);
            assert(gone == gone_before.push(pid));
            assert(gone.drop_last() =~= gone_before);
            let present = contains_pid(&killed, pid);
            proof {
                assert(killed@.contains(pid) <==> killed_before.contains(pid) || added.contains(pid)) by {
                    if killed@.contains(pid) {
                        let k = choose|k: int| 0 <= k < killed@.len() && killed@[k] == pid;
                        if k >= killed_before.len() {
                            assert(added[k - killed_before.len()] == pid);
                        }
                    }
                    if killed_before.contains(pid) {
                        let k = choose|k: int| 0 <= k < killed_before.len() && killed_before[k] == pid;
                        assert(killed@[k] == pid);
                    }
                    if added.contains(pid) {
                        let k = choose|k: int| 0 <= k < added.len() && added[k] == pid;
                        assert(killed@[killed_before.len() + k] == pid);
                    }
                }
            }
            if !present {
                killed.push(pid);
                assert(killed@ =~= killed_before + added.push(pid));
            }
        }
        i = i + 1;
    }
    assert(targets@.take(targets.len() as int) =~= targets@);
    (killed, still_failed)
}


/// The decimal forms of `pids`.
pub open spec fn pid_words(pids: Seq<u32>) -> Seq<Seq<char>> {
    pids.map_values(|p: u32| decimal(p as nat))
}

/// The AppleScript that force-closes `pids` with administrator rights.
pub open spec fn admin_script_text(pids: Seq<u32>) -> Seq<char> {
    r#"do shell script "for pid in "#@ + join(pid_words(pids), seq![' '])
        + r#"; do /bin/kill -9 \"$pid\" 2>/dev/null || true; done" with administrator privileges with prompt "Codex Switcher needs permission to force close sudo/root Codex processes.""#@
}

/// The AppleScript that force-closes `pids` with administrator rights, or `None` when
/// there is nothing to close (which counts as success without asking for rights).
pub fn admin_kill_script(pids: &Vec<u32>) -> (r: Option<String>)
    ensures
        r is None <==> pids@.len() == 0,
        r matches Some(script) ==> script@ == admin_script_text(pids@),
{
    if pids.len() == 0 {
        return None;
    }
    let mut script = String::from_str(r#"do shell script "for pid in "#);
    let ghost prefix = script@;
    let mut i: usize = 0;
    assert(pid_words(pids@.take(0)) =~= Seq::<Seq<char>>::empty());
    while i < pids.len()
        invariant
            i <= pids.len(),
            script@ == prefix + join(pid_words(pids@.take(i as int)), seq![' ']),
        decreases pids.len() - i,
    {
        let ghost before = script@;
        if i > 0 {
            proof {
                reveal_strlit(" ");
            }
            script.append(" ");
        }
        append_decimal(&mut script, pids[i]);
        proof {
            let w = pid_words(pids@.take(i + 1));
            assert(w =~= pid_words(pids@.take(i as int)).push(decimal(pids@[i as int] as nat)));
            assert(w.drop_last() =~= pid_words(pids@.take(i as int)));
            if i == 0 {
                assert(join(w, seq![' ']) == w[0]);
            }
            assert(script@ =~= prefix + join(w, seq![' ']));
        }
        i = i + 1;
    }
    assert(pids@.take(pids.len() as int) =~= pids@);
    script.append(
        r#"; do /bin/kill -9 \"$pid\" 2>/dev/null || true; done" with administrator privileges with prompt "Codex Switcher needs permission to force close sudo/root Codex processes.""#,
    );
    Some(script)
}

/// The administrator script is the fixed text around the list of pids: between
/// `for pid in ` and `; do` its words are the pids in order, each in decimal (so each
/// reads back as its pid), and nothing else.
pub proof fn admin_script_names_each_pid(pids: Seq<u32>)
    ensures
        ({
            let head = r#"do shell script "for pid in "#@;
            let tail = r#"; do /bin/kill -9 \"$pid\" 2>/dev/null || true; done" with administrator privileges with prompt "Codex Switcher needs permission to force close sudo/root Codex processes.""#@;
            let t = admin_script_text(pids);
            let middle = t.subrange(head.len() as int, t.len() - tail.len());
            &&& t.len() >= head.len() + tail.len()
            &&& t.take(head.len() as int) == head
            &&& t.skip(t.len() - tail.len()) == tail
            &&& words(middle).len() == pids.len()
            &&& forall|i: int|
                0 <= i < pids.len() ==> #[trigger] words(middle)[i] == decimal(pids[i] as nat) && parse_u32(
                    words(middle)[i],
                ) == Some(pids[i])
        }),
{
    let head = r#"do shell script "for pid in "#@;
    let tail = r#"; do /bin/kill -9 \"$pid\" 2>/dev/null || true; done" with administrator privileges with prompt "Codex Switcher needs permission to force close sudo/root Codex processes.""#@;
    let ws = pid_words(pids);
    let j = join(ws, seq![' ']);
    let t = admin_script_text(pids);
    assert(t == head + j + tail);
    assert(t.take(head.len() as int) =~= head);
    assert(t.skip(t.len() - tail.len()) =~= tail);
    assert(t.subrange(head.len() as int, t.len() - tail.len()) =~= j);
    assert forall|k: int| 0 <= k < ws.len() implies (#[trigger] ws[k]).len() > 0 by {
        decimal_reads_back(pids[k] as nat);
    }
    assert forall|k: int, i: int| 0 <= k < ws.len() && 0 <= i < ws[k].len() implies !is_ws(#[trigger] ws[k][i]) by {
        decimal_reads_back(pids[k] as nat);
        assert(is_digit(ws[k][i]));
    }
    words_of_join(ws);
    assert forall|i: int| 0 <= i < pids.len() implies #[trigger] words(j)[i] == decimal(pids[i] as nat) && parse_u32(
        words(j)[i],
    ) == Some(pids[i]) by {
        decimal_reads_back(pids[i] as nat);
    }
}

/// Whether `ps -p <pid> -o pid=` reported the process: the command succeeded and one of
/// the words of its output is the pid.
pub fn ps_lists_pid(succeeded: bool, listing: &str, pid: u32) -> (r: bool)
    ensures
        r == (succeeded && words(listing@).contains(decimal(pid as nat))),
{
    if !succeeded {
        return false;
    }
    let chars = chars_of(listing);
    let ws = split_words(&chars);
    let mut wanted: Vec<char> = Vec::new();
    push_decimal(&mut wanted, pid);
    assert(wanted@ =~= decimal(pid as nat));
    let mut i: usize = 0;
    while i < ws.len()
        invariant
            i <= ws.len(),
            wanted@ == decimal(pid as nat),
            views(ws@) == words(listing@),
            succeeded,
            forall|k: int| 0 <= k < i ==> views(ws@)[k] != wanted@,
        decreases ws.len() - i,
    {
        let same = equals_chars(&ws[i], &wanted);
        if same {
            assert(views(ws@)[i as int] == wanted@);
            assert(words(listing@)[i as int] == decimal(pid as nat));
            return true;
        }
        i = i + 1;
    }
    false
}

/// Whether the output of `tasklist /FI "PID eq <pid>"` mentions the pid anywhere.
pub fn tasklist_lists_pid(listing: &str, pid: u32) -> (r: bool)
    ensures
        r == has_sub(listing@, decimal(pid as nat)),
{
    let chars = chars_of(listing);
    let mut wanted: Vec<char> = Vec::new();
    push_decimal(&mut wanted, pid);
    assert(wanted@ =~= decimal(pid as nat));
    contains_chars(&chars, &wanted)
}

/// The uid printed by `id -u`: the trimmed output read as a number, when the command
/// succeeded.
pub fn parse_uid_output(succeeded: bool, output: &str) -> (r: Option<u32>)
    ensures
        r == (if succeeded { parse_u32(trim(output@)) } else { None }),
{
    if !succeeded {
        return None;
    }
    let chars = chars_of(output);
    let trimmed = trim_chars(&chars);
    parse_u32_chars(&trimmed)
}


/// `targets_where` keeps exactly the targets on the chosen side, and no pid twice when
/// the targets hold none twice.
pub proof fn lemma_targets_where(
    targets: Seq<u32>,
    snapshot: Option<&UnixProcessSnapshot>,
    current_uid: Option<u32>,
    escalate_foreign: bool,
    admin: bool,
)
    ensures
        forall|x: u32|
            #[trigger] targets_where(targets, snapshot, current_uid, escalate_foreign, admin).contains(x)
                <==> targets.contains(x) && needs_admin(snapshot, current_uid, escalate_foreign, x) == admin,
        targets.no_duplicates() ==> targets_where(targets, snapshot, current_uid, escalate_foreign, admin).no_duplicates(),
    decreases targets.len(),
{
    if targets.len() > 0 {
        let init = targets.drop_last();
        lemma_targets_where(init, snapshot, current_uid, escalate_foreign, admin);
        let prev = targets_where(init, snapshot, current_uid, escalate_foreign, admin);
        let cur = targets_where(targets, snapshot, current_uid, escalate_foreign, admin);
        assert forall|x: u32| #[trigger] cur.contains(x) <==> targets.contains(x) && needs_admin(
            snapshot,
            current_uid,
            escalate_foreign,
            x,
        ) == admin by {
            if targets.contains(x) {
                let k = choose|k: int| 0 <= k < targets.len() && targets[k] == x;
                if k < init.len() {
                    assert(init[k] == x);
                }
            }
            if init.contains(x) {
                let k = choose|k: int| 0 <= k < init.len() && init[k] == x;
                assert(targets[k] == x);
            }
            if cur.contains(x) && !prev.contains(x) {
                let k = choose|k: int| 0 <= k < cur.len() && cur[k] == x;
                assert(k == prev.len());
            }
            if prev.contains(x) && cur != prev {
                let k = choose|k: int| 0 <= k < prev.len() && prev[k] == x;
                assert(cur[k] == x);
            }
            if x == targets.last() && needs_admin(snapshot, current_uid, escalate_foreign, x) == admin {
                assert(cur[cur.len() - 1] == x);
            }
        }
        if targets.no_duplicates() {
            assert(init.no_duplicates());
            if cur != prev {
                assert(!init.contains(targets.last())) by {
                    if init.contains(targets.last()) {
                        let k = choose|k: int| 0 <= k < init.len() && init[k] == targets.last();
                        assert(targets[k] == targets[targets.len() - 1]);
                    }
                }
                assert(!prev.contains(targets.last()));
            }
        }
    }
}

/// `with_outcome` keeps entries of `pids` whose outcome is `want`, and no pid twice when
/// `pids` holds none twice.
pub proof fn lemma_with_outcome(pids: Seq<u32>, outcomes: Seq<bool>, want: bool)
    requires
        pids.len() <= outcomes.len(),
    ensures
        forall|x: u32|
            #[trigger] with_outcome(pids, outcomes, want).contains(x) ==> exists|i: int|
                0 <= i < pids.len() && pids[i] == x && outcomes[i] == want,
        pids.no_duplicates() ==> with_outcome(pids, outcomes, want).no_duplicates(),
    decreases pids.len(),
{
    if pids.len() > 0 {
        let init = pids.drop_last();
        lemma_with_outcome(init, outcomes, want);
        let prev = with_outcome(init, outcomes, want);
        let cur = with_outcome(pids, outcomes, want);
        assert forall|x: u32| #[trigger] cur.contains(x) implies exists|i: int|
            0 <= i < pids.len() && pids[i] == x && outcomes[i] == want by {
            let k = choose|k: int| 0 <= k < cur.len() && cur[k] == x;
            if k < prev.len() {
                assert(prev.contains(x));
                let i = choose|i: int| 0 <= i < init.len() && init[i] == x && outcomes[i] == want;
                assert(pids[i] == x);
            } else {
                assert(pids[pids.len() - 1] == x);
            }
        }
        if pids.no_duplicates() {
            assert(init.no_duplicates());
            if cur != prev {
                assert(!prev.contains(pids.last())) by {
                    if prev.contains(pids.last()) {
                        let i = choose|i: int| 0 <= i < init.len() && init[i] == pids.last() && outcomes[i] == want;
                        assert(pids[i] == pids[pids.len() - 1]);
                    }
                }
            }
        }
    }
}

/// The direct signals never report a pid both as killed and as failed: when the targets
/// hold no pid twice, they split the directly signalled targets into killed and failed,
/// each list naming no pid twice.
pub proof fn direct_kill_report_consistent(
    targets: Seq<u32>,
    snapshot: Option<&UnixProcessSnapshot>,
    current_uid: Option<u32>,
    escalate_foreign: bool,
    signalled: Seq<bool>,
)
    requires
        targets.no_duplicates(),
        signalled.len() == targets_where(targets, snapshot, current_uid, escalate_foreign, false).len(),
    ensures
        ({
            let direct = targets_where(targets, snapshot, current_uid, escalate_foreign, false);
            let killed = with_outcome(direct, signalled, true);
            let failed = with_outcome(direct, signalled, false);
            &&& killed.to_set().disjoint(failed.to_set())
            &&& killed.no_duplicates()
            &&& failed.no_duplicates()
            &&& killed.to_set().union(failed.to_set()) == direct.to_set()
            &&& killed.to_set().subset_of(targets.to_set())
            &&& failed.to_set().subset_of(targets.to_set())
        }),
{
    let direct = targets_where(targets, snapshot, current_uid, escalate_foreign, false);
    lemma_targets_where(targets, snapshot, current_uid, escalate_foreign, false);
    let killed = with_outcome(direct, signalled, true);
    let failed = with_outcome(direct, signalled, false);
    lemma_with_outcome(direct, signalled, true);
    lemma_with_outcome(direct, signalled, false);
    assert(killed.no_duplicates());
    assert(failed.no_duplicates());
    assert forall|x: u32| killed.contains(x) implies !failed.contains(x) && direct.contains(x) by {
        let i = choose|i: int| 0 <= i < direct.len() && direct[i] == x && signalled[i] == true;
        if failed.contains(x) {
            let j = choose|j: int| 0 <= j < direct.len() && direct[j] == x && signalled[j] == false;
        }
        assert(direct.contains(x));
    }
    assert forall|x: u32| failed.contains(x) implies direct.contains(x) by {
        let i = choose|i: int| 0 <= i < direct.len() && direct[i] == x && signalled[i] == false;
        assert(direct.contains(x));
    }
    assert forall|x: u32| direct.contains(x) implies #[trigger] killed.contains(x) || failed.contains(x) by {
        lemma_with_outcome_complete(direct, signalled, x);
    }
    assert(killed.to_set().union(failed.to_set()) =~= direct.to_set());
    assert(killed.to_set().disjoint(failed.to_set()));
    assert(killed.to_set().subset_of(targets.to_set()));
    assert(failed.to_set().subset_of(targets.to_set()));
}

/// After the administrator attempt, the report still never names a pid both as killed
/// and as failed, names no pid twice in either list, and names only targeted processes: the attempt covers the escalated
/// pids and those whose direct signal failed (sorted, each once); the ones still running
/// fail, and when the attempt succeeded the others join the killed ones.
pub proof fn kill_report_consistent(
    targets: Seq<u32>,
    snapshot: Option<&UnixProcessSnapshot>,
    current_uid: Option<u32>,
    escalate_foreign: bool,
    signalled: Seq<bool>,
    retry: Seq<u32>,
    admin_succeeded: bool,
    still_running: Seq<bool>,
)
    requires
        targets.no_duplicates(),
        signalled.len() == targets_where(targets, snapshot, current_uid, escalate_foreign, false).len(),
        strictly_increasing(retry),
        retry.to_set() == targets_where(targets, snapshot, current_uid, escalate_foreign, true).to_set().union(
            with_outcome(targets_where(targets, snapshot, current_uid, escalate_foreign, false), signalled, false).to_set(),
        ),
        still_running.len() == retry.len(),
    ensures
        ({
            let direct = targets_where(targets, snapshot, current_uid, escalate_foreign, false);
            let killed = with_outcome(direct, signalled, true);
            let final_killed = if admin_succeeded {
                killed + first_occurrences_outside(with_outcome(retry, still_running, false), killed.to_set())
            } else {
                killed
            };
            let final_failed = with_outcome(retry, still_running, true);
            &&& final_killed.to_set().disjoint(final_failed.to_set())
            &&& final_killed.no_duplicates()
            &&& final_failed.no_duplicates()
            &&& final_killed.to_set().subset_of(targets.to_set())
            &&& final_failed.to_set().subset_of(targets.to_set())
        }),
{
    direct_kill_report_consistent(targets, snapshot, current_uid, escalate_foreign, signalled);
    let direct = targets_where(targets, snapshot, current_uid, escalate_foreign, false);
    let escalated = targets_where(targets, snapshot, current_uid, escalate_foreign, true);
    lemma_targets_where(targets, snapshot, current_uid, escalate_foreign, false);
    lemma_targets_where(targets, snapshot, current_uid, escalate_foreign, true);
    let killed = with_outcome(direct, signalled, true);
    let failed = with_outcome(direct, signalled, false);
    lemma_with_outcome(direct, signalled, true);
    assert(retry.no_duplicates());
    lemma_with_outcome(retry, still_running, true);
    lemma_with_outcome(retry, still_running, false);
    let gone = with_outcome(retry, still_running, false);
    let final_failed = with_outcome(retry, still_running, true);
    let added = first_occurrences_outside(gone, killed.to_set());
    assert forall|x: u32| killed.contains(x) implies !failed.contains(x) && !escalated.contains(x) by {
        assert(killed.to_set().contains(x));
        let i = choose|i: int| 0 <= i < direct.len() && direct[i] == x && signalled[i] == true;
        assert(direct.contains(x));
    }
    assert forall|x: u32| final_failed.contains(x) implies retry.contains(x) && !gone.contains(x) by {
        let i = choose|i: int| 0 <= i < retry.len() && retry[i] == x && still_running[i] == true;
        if gone.contains(x) {
            let j = choose|j: int| 0 <= j < retry.len() && retry[j] == x && still_running[j] == false;
            assert(i == j);
        }
    }
    assert forall|x: u32| gone.contains(x) implies retry.contains(x) by {
        let i = choose|i: int| 0 <= i < retry.len() && retry[i] == x && still_running[i] == false;
    }
    assert forall|x: u32| #[trigger] retry.contains(x) implies targets.contains(x) && !killed.contains(x) by {
        assert(retry.to_set().contains(x));
        if failed.contains(x) {
            assert(failed.to_set().contains(x));
        }
    }
    assert forall|x: u32| added.contains(x) implies gone.contains(x) by {
        lemma_first_occurrences_outside(gone, killed.to_set(), x);
    }
    assert forall|x: u32| (killed + added).contains(x) implies killed.contains(x) || added.contains(x) by {
        let k = choose|k: int| 0 <= k < (killed + added).len() && (killed + added)[k] == x;
        if k >= killed.len() {
            assert(added[k - killed.len()] == x);
        }
    }
    assert forall|x: u32| killed.contains(x) implies targets.contains(x) by {
        assert(killed.to_set().contains(x));
    }
    let final_killed = if admin_succeeded { killed + added } else { killed };
    assert forall|x: u32| #[trigger] final_killed.contains(x) implies targets.contains(x) && !final_failed.contains(x) by {
        if killed.contains(x) {
        } else {
            assert(added.contains(x));
            assert(gone.contains(x));
        }
    }
    assert(final_killed.to_set().disjoint(final_failed.to_set()));
    assert(final_failed.no_duplicates());
    assert(final_killed.no_duplicates()) by {
        if admin_succeeded {
            lemma_first_occurrences_distinct(gone, killed.to_set());
            assert forall|a: int, b: int|
                0 <= a < final_killed.len() && 0 <= b < final_killed.len() && a != b implies final_killed[a]
                != final_killed[b] by {
                if a >= killed.len() && b < killed.len() {
                    assert(added[a - killed.len()] == final_killed[a]);
                    lemma_first_occurrences_outside(gone, killed.to_set(), final_killed[a]);
                    assert(killed.contains(killed[b]));
                } else if a < killed.len() && b >= killed.len() {
                    assert(added[b - killed.len()] == final_killed[b]);
                    lemma_first_occurrences_outside(gone, killed.to_set(), final_killed[b]);
                    assert(killed.contains(killed[a]));
                } else if a >= killed.len() && b >= killed.len() {
                    assert(added[a - killed.len()] == final_killed[a]);
                    assert(added[b - killed.len()] == final_killed[b]);
                }
            }
        }
    }
    assert(final_killed.to_set().subset_of(targets.to_set()));
    assert(final_failed.to_set().subset_of(targets.to_set()));
}

/// Every entry whose outcome is `want` is kept.
proof fn lemma_with_outcome_complete(pids: Seq<u32>, outcomes: Seq<bool>, x: u32)
    requires
        pids.len() <= outcomes.len(),
        pids.contains(x),
    ensures
        with_outcome(pids, outcomes, true).contains(x) || with_outcome(pids, outcomes, false).contains(x),
    decreases pids.len(),
{
    let init = pids.drop_last();
    if pids.last() == x {
        let w = outcomes[pids.len() - 1];
        assert(with_outcome(pids, outcomes, w) == with_outcome(init, outcomes, w).push(x));
        assert(with_outcome(pids, outcomes, w)[with_outcome(init, outcomes, w).len() as int] == x);
    } else {
        let k = choose|k: int| 0 <= k < pids.len() && pids[k] == x;
        assert(init[k] == x);
        lemma_with_outcome_complete(init, outcomes, x);
        lemma_with_outcome_prefix(pids, outcomes, x);
    }
}

/// Entries kept for a prefix stay kept.
proof fn lemma_with_outcome_prefix(pids: Seq<u32>, outcomes: Seq<bool>, x: u32)
    requires
        pids.len() >= 1,
        pids.len() <= outcomes.len(),
    ensures
        with_outcome(pids.drop_last(), outcomes, true).contains(x) ==> with_outcome(pids, outcomes, true).contains(x),
        with_outcome(pids.drop_last(), outcomes, false).contains(x) ==> with_outcome(pids, outcomes, false).contains(x),
{
    let t0 = with_outcome(pids.drop_last(), outcomes, true);
    let f0 = with_outcome(pids.drop_last(), outcomes, false);
    if t0.contains(x) {
        let k = choose|k: int| 0 <= k < t0.len() && t0[k] == x;
        assert(with_outcome(pids, outcomes, true)[k] == x);
    }
    if f0.contains(x) {
        let k = choose|k: int| 0 <= k < f0.len() && f0[k] == x;
        assert(with_outcome(pids, outcomes, false)[k] == x);
    }
}

} // verus!
