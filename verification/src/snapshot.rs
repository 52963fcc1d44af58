//! The process tree read from `ps -axo pid=,ppid=,uid=`, and the set of processes to
//! close when some sessions are to be closed with all their descendants.
use std::collections::HashMap;
use std::collections::HashSet;
use vstd::prelude::*;

use crate::pid_set::first_occurrences_outside;
use crate::text::{chars_of, lines, parse_u32, parse_u32_chars, split_lines, split_words, views, words};

verus! {

broadcast use vstd::std_specs::hash::group_hash_axioms;

/// Parent/child links and owners of the running processes.
pub struct UnixProcessSnapshot {
    /// For each parent pid, its children in listing order.
    pub children_by_parent: HashMap<u32, Vec<u32>>,
    /// For each pid, the uid of its owner.
    pub uid_by_pid: HashMap<u32, u32>,
}

/// One row of the listing: pid, parent pid and uid, when all three read as numbers.
pub open spec fn snapshot_row(t: Seq<Seq<char>>) -> Option<(u32, u32, u32)> {
    if t.len() >= 3 && parse_u32(t[0]) is Some && parse_u32(t[1]) is Some && parse_u32(t[2]) is Some {
        Some((parse_u32(t[0])->0, parse_u32(t[1])->0, parse_u32(t[2])->0))
    } else {
        None
    }
}

/// The readable rows of the listing lines `ls`, in order.
pub open spec fn snapshot_rows(ls: Seq<Seq<char>>) -> Seq<(u32, u32, u32)>
    decreases ls.len(),
{
    if ls.len() == 0 {
        Seq::empty()
    } else {
        let prev = snapshot_rows(ls.drop_last());
        match snapshot_row(words(ls.last())) {
            Some(row) => prev.push(row),
            None => prev,
        }
    }
}

/// The pids of the rows whose parent is `ppid`, in order.
pub open spec fn children_in(rows: Seq<(u32, u32, u32)>, ppid: u32) -> Seq<u32>
    decreases rows.len(),
{
    if rows.len() == 0 {
        Seq::empty()
    } else {
        let prev = children_in(rows.drop_last(), ppid);
        if rows.last().1 == ppid {
            prev.push(rows.last().0)
        } else {
            prev
        }
    }
}

/// The uid of the last row for `pid`.
pub open spec fn uid_in(rows: Seq<(u32, u32, u32)>, pid: u32) -> Option<u32>
    decreases rows.len(),
{
    if rows.len() == 0 {
        None
    } else if rows.last().0 == pid {
        Some(rows.last().2)
    } else {
        uid_in(rows.drop_last(), pid)
    }
}

/// `children` and `uids` hold exactly the links and owners that `rows` give.
pub open spec fn describes_rows(
    children: Map<u32, Vec<u32>>,
    uids: Map<u32, u32>,
    rows: Seq<(u32, u32, u32)>,
) -> bool {
    &&& forall|p: u32| #[trigger] children.contains_key(p) <==> children_in(rows, p).len() > 0
    &&& forall|p: u32| #[trigger] children.contains_key(p) ==> children[p]@ == children_in(rows, p)
    &&& forall|p: u32| #[trigger] uids.contains_key(p) <==> uid_in(rows, p) is Some
    &&& forall|p: u32| #[trigger] uids.contains_key(p) ==> uid_in(rows, p) == Some(uids[p])
}

/// The snapshot holds exactly the links and owners that `rows` give.
pub open spec fn describes(snapshot: UnixProcessSnapshot, rows: Seq<(u32, u32, u32)>) -> bool {
    describes_rows(snapshot.children_by_parent@, snapshot.uid_by_pid@, rows)
}

/// Reads the output of `ps -axo pid=,ppid=,uid=`. Lines whose first three words are not
/// all numbers are skipped; later words are ignored.
pub fn parse_unix_process_snapshot(listing: &str) -> (snapshot: UnixProcessSnapshot)
    ensures
        describes(snapshot, snapshot_rows(lines(listing@))),
{
    let chars = chars_of(listing);
    let ls = split_lines(&chars);
    let mut children_by_parent: HashMap<u32, Vec<u32>> = HashMap::new();
    let mut uid_by_pid: HashMap<u32, u32> = HashMap::new();
    let mut i: usize = 0;
    while i < ls.len()
        invariant
            i <= ls.len(),
            describes_rows(
                children_by_parent@,
                uid_by_pid@,
                snapshot_rows(views(ls@).take(i as int)),
            ),
        decreases ls.len() - i,
    {
        let ghost rows = snapshot_rows(views(ls@).take(i as int));
        proof {
            assert(views(ls@).take(i + 1).drop_last() =~= views(ls@).take(i as int));
            assert(views(ls@).take(i + 1).last() == ls@[i as int]@);
        }
        let t = split_words(&ls[i]);
        if t.len() >= 3 {
            let pid = parse_u32_chars(&t[0]);
            let ppid = parse_u32_chars(&t[1]);
            let uid = parse_u32_chars(&t[2]);
            if let (Some(pid), Some(ppid), Some(uid)) = (pid, ppid, uid) {
                let ghost new_rows = rows.push((pid, ppid, uid));
                assert(new_rows.drop_last() =~= rows);
                let ghost old_children = children_by_parent@;
                let ghost old_uids = uid_by_pid@;
                let mut siblings = match children_by_parent.remove(&ppid) {
                    Some(v) => v,
                    None => Vec::new(),
                };
                siblings.push(pid);
                children_by_parent.insert(ppid, siblings);
                uid_by_pid.insert(pid, uid);
                proof {
                    assert(children_by_parent@ == old_children.remove(ppid).insert(ppid, siblings));
                    assert(uid_by_pid@ == old_uids.insert(pid, uid));
                    assert(old_children.contains_key(ppid) <==> children_in(rows, ppid).len() > 0);
                    if !old_children.contains_key(ppid) {
                        assert(children_in(rows, ppid) =~= Seq::<u32>::empty());
                    }
                    assert(siblings@ =~= children_in(rows, ppid).push(pid));
                    assert forall|p: u32|
                        #[trigger] children_by_parent@.contains_key(p) <==> children_in(
                            new_rows,
                            p,
                        ).len() > 0 by {
                        if p != ppid {
                            assert(children_in(new_rows, p) == children_in(rows, p));
                        }
                    }
                    assert forall|p: u32| #[trigger]
                        children_by_parent@.contains_key(p) implies children_by_parent@[p]@
                        == children_in(new_rows, p) by {
                        if p != ppid {
                            assert(children_in(new_rows, p) == children_in(rows, p));
                        }
                    }
                    assert forall|p: u32| #[trigger]
                        uid_by_pid@.contains_key(p) <==> uid_in(new_rows, p) is Some by {
                        if p != pid {
                            assert(uid_in(new_rows, p) == uid_in(rows, p));
                        }
                    }
                    assert forall|p: u32| #[trigger]
                        uid_by_pid@.contains_key(p) implies uid_in(new_rows, p) == Some(
                            uid_by_pid@[p],
                        ) by {
                        if p != pid {
                            assert(uid_in(new_rows, p) == uid_in(rows, p));
                        }
                    }
                }
            }
        }
        i = i + 1;
    }
    assert(views(ls@).take(ls.len() as int) =~= views(ls@));
    UnixProcessSnapshot { children_by_parent, uid_by_pid }
}


/// `child` is listed as a child of `parent`.
pub open spec fn child_of(children: Map<u32, Vec<u32>>, parent: u32, child: u32) -> bool {
    children.contains_key(parent) && children[parent]@.contains(child)
}

/// Each entry of `path` is a child of the one before.
pub open spec fn is_path(children: Map<u32, Vec<u32>>, path: Seq<u32>) -> bool {
    forall|i: int| 0 <= i < path.len() - 1 ==> child_of(children, #[trigger] path[i], path[i + 1])
}

/// `x` is a child, grandchild, ... of `root` (not `root` itself, unless on a cycle).
pub open spec fn descends_from(children: Map<u32, Vec<u32>>, x: u32, root: u32) -> bool {
    exists|path: Seq<u32>|
        path.len() >= 2 && path[0] == root && path.last() == x && #[trigger] is_path(children, path)
}

/// `x` descends from one of `roots`.
pub open spec fn descends_from_any(children: Map<u32, Vec<u32>>, x: u32, roots: Seq<u32>) -> bool {
    exists|j: int| 0 <= j < roots.len() && descends_from(children, x, #[trigger] roots[j])
}

/// The descendants of `roots` that a snapshot shows (none without a snapshot).
pub open spec fn descendants(snapshot: Option<&UnixProcessSnapshot>, roots: Seq<u32>) -> Set<u32> {
    match snapshot {
        Some(s) => Set::new(|x: u32| descends_from_any(s.children_by_parent@, x, roots)),
        None => Set::empty(),
    }
}

/// A finite set of `u32` has at most 2^32 elements.
pub proof fn lemma_u32_set_len(s: Set<u32>)
    requires
        s.finite(),
    ensures
        s.len() <= 0x1_0000_0000,
{
    let full = Set::<u32>::range_inclusive(0, u32::MAX);
    vstd::set_lib::range_set_properties::<u32>(0, u32::MAX);
    assert(s.subset_of(full));
    vstd::set_lib::lemma_len_subset(s, full);
}

/// The children that `children` lists for `p` (none when it lists none).
pub open spec fn kids_of(children: Map<u32, Vec<u32>>, p: u32) -> Seq<u32> {
    if children.contains_key(p) {
        children[p]@
    } else {
        Seq::empty()
    }
}

/// The depth-first walk over the tree: take the last pid of `stack`; unless it is in
/// `seen`, list it, add it to `seen` and push its children. Gives the pids listed, in
/// order, and `seen` at the end.
pub open spec fn walk(children: Map<u32, Vec<u32>>, stack: Seq<u32>, seen: Set<u32>) -> (Seq<u32>, Set<u32>)
    decreases 0x1_0000_0000 - seen.len(), stack.len(),
{
    if stack.len() == 0 || !seen.finite() {
        (Seq::empty(), seen)
    } else if seen.contains(stack.last()) {
        walk(children, stack.drop_last(), seen)
    } else {
        let pid = stack.last();
        proof {
            lemma_u32_set_len(seen.insert(pid));
        }
        let rest = walk(children, stack.drop_last() + kids_of(children, pid), seen.insert(pid));
        (seq![pid] + rest.0, rest.1)
    }
}

/// The walks from the children of each of `roots` in turn, sharing one `seen` set.
pub open spec fn walk_roots(children: Map<u32, Vec<u32>>, roots: Seq<u32>) -> (Seq<u32>, Set<u32>)
    decreases roots.len(),
{
    if roots.len() == 0 {
        (Seq::empty(), Set::empty())
    } else {
        let prev = walk_roots(children, roots.drop_last());
        let next = walk(children, kids_of(children, roots.last()), prev.1);
        (prev.0 + next.0, next.1)
    }
}

/// The descendants of `roots` in the order the walk lists them (none without a snapshot).
pub open spec fn descendant_order(snapshot: Option<&UnixProcessSnapshot>, roots: Seq<u32>) -> Seq<u32> {
    match snapshot {
        Some(s) => walk_roots(s.children_by_parent@, roots).0,
        None => Seq::empty(),
    }
}

/// A path ending in `x` extends by any child of `x`.
proof fn lemma_extend_descent(children: Map<u32, Vec<u32>>, x: u32, root: u32, c: u32)
    requires
        descends_from(children, x, root),
        child_of(children, x, c),
    ensures
        descends_from(children, c, root),
{
    let path = choose|path: Seq<u32>|
        path.len() >= 2 && path[0] == root && path.last() == x && #[trigger] is_path(children, path);
    let p2 = path.push(c);
    assert forall|i: int| 0 <= i < p2.len() - 1 implies child_of(children, #[trigger] p2[i], p2[i + 1]) by {
        if i < path.len() - 1 {
            assert(p2[i] == path[i] && p2[i + 1] == path[i + 1]);
        }
    }
    assert(is_path(children, p2));
}

/// A direct child descends.
proof fn lemma_child_descends(children: Map<u32, Vec<u32>>, root: u32, c: u32)
    requires
        child_of(children, root, c),
    ensures
        descends_from(children, c, root),
{
    let p = seq![root, c];
    assert(is_path(children, p));
}

/// A set that holds the children of every root and of each of its members holds
/// every descendant.
proof fn lemma_closed_holds_descendants(children: Map<u32, Vec<u32>>, roots: Seq<u32>, v: Set<u32>, x: u32)
    requires
        forall|j: int, c: u32|
            0 <= j < roots.len() && #[trigger] child_of(children, roots[j], c) ==> v.contains(c),
        forall|y: u32, c: u32| v.contains(y) && #[trigger] child_of(children, y, c) ==> v.contains(c),
        descends_from_any(children, x, roots),
    ensures
        v.contains(x),
{
    let j = choose|j: int| 0 <= j < roots.len() && descends_from(children, x, #[trigger] roots[j]);
    let path = choose|path: Seq<u32>|
        path.len() >= 2 && path[0] == roots[j] && path.last() == x && #[trigger] is_path(children, path);
    assert(child_of(children, path[0], path[1]));
    lemma_path_stays_in(children, v, path, path.len() - 1);
}

/// Along a path, membership in a set closed under children carries on from the second entry.
proof fn lemma_path_stays_in(children: Map<u32, Vec<u32>>, v: Set<u32>, path: Seq<u32>, k: int)
    requires
        1 <= k < path.len(),
        v.contains(path[1]),
        is_path(children, path),
        forall|y: u32, c: u32| v.contains(y) && #[trigger] child_of(children, y, c) ==> v.contains(c),
    ensures
        v.contains(path[k]),
    decreases k,
{
    if k > 1 {
        lemma_path_stays_in(children, v, path, k - 1);
        assert(child_of(children, path[k - 1], path[k]));
    }
}

/// The processes to close for the sessions `root_pids`: every descendant that the
/// snapshot shows, in the order of a depth-first walk from each session in turn, then
/// the sessions themselves; each pid once.
pub fn expand_process_targets(root_pids: &[u32], snapshot: Option<&UnixProcessSnapshot>) -> (targets: Vec<u32>)
    ensures
        targets@ == descendant_order(snapshot, root_pids@) + first_occurrences_outside(
            root_pids@,
            descendants(snapshot, root_pids@),
        ),
        targets@.no_duplicates(),
        targets@.to_set() == root_pids@.to_set().union(descendants(snapshot, root_pids@)),
        ({
            let tail = first_occurrences_outside(root_pids@, descendants(snapshot, root_pids@));
            &&& tail.len() <= targets@.len()
            &&& targets@.skip(targets@.len() - tail.len()) == tail
            &&& targets@.take(targets@.len() - tail.len()).to_set() == descendants(snapshot, root_pids@)
        }),
{
    let mut targets: Vec<u32> = Vec::new();
    let mut visited: HashSet<u32> = HashSet::new();
    let ghost roots = root_pids@;
    if let Some(snapshot) = snapshot {
        let ghost m = snapshot.children_by_parent@;
        let mut r: usize = 0;
        while r < root_pids.len()
            invariant
                r <= root_pids.len(),
                roots == root_pids@,
                m == snapshot.children_by_parent@,
                visited@ == targets@.to_set(),
                targets@.no_duplicates(),
                forall|x: u32| #[trigger] visited@.contains(x) ==> descends_from_any(m, x, roots),
                forall|y: u32, c: u32| visited@.contains(y) && #[trigger] child_of(m, y, c) ==> visited@.contains(c),
                forall|j: int, c: u32| 0 <= j < r && #[trigger] child_of(m, roots[j], c) ==> visited@.contains(c),
                targets@ == walk_roots(m, roots.take(r as int)).0,
                visited@ == walk_roots(m, roots.take(r as int)).1,
            decreases root_pids.len() - r,
        {
            let root = root_pids[r];
            let mut stack: Vec<u32> = Vec::new();
            match snapshot.children_by_parent.get(&root) {
                Some(kids) => {
                    let mut k: usize = 0;
                    while k < kids.len()
                        invariant
                            k <= kids.len(),
                            stack@ == kids@.take(k as int),
                        decreases kids.len() - k,
                    {
                        stack.push(kids[k]);
                        k = k + 1;
                        assert(stack@ =~= kids@.take(k as int));
                    }
                    assert(kids@.take(k as int) =~= kids@);
                },
                None => {},
            }
            proof {
                assert forall|c: u32| child_of(m, root, c) implies stack@.contains(c) by {}
                assert forall|c: u32| stack@.contains(c) implies descends_from_any(m, c, roots) by {
                    lemma_child_descends(m, root, c);
                    assert(roots[r as int] == root);
                }
                assert(stack@ =~= kids_of(m, root));
                assert(roots.take(r + 1).drop_last() =~= roots.take(r as int));
                assert(roots.take(r + 1).last() == root);
            }
            let ghost t0 = targets@;
            let ghost w0 = walk(m, stack@, visited@);
            let ghost pre = walk_roots(m, roots.take(r as int));
            while stack.len() > 0
                invariant
                    r < root_pids.len(),
                    roots == root_pids@,
                    root == roots[r as int],
                    m == snapshot.children_by_parent@,
                    visited@ == targets@.to_set(),
                    targets@.no_duplicates(),
                    forall|x: u32| #[trigger] visited@.contains(x) ==> descends_from_any(m, x, roots),
                    forall|x: u32| #[trigger] stack@.contains(x) ==> descends_from_any(m, x, roots),
                    forall|y: u32, c: u32|
                        visited@.contains(y) && #[trigger] child_of(m, y, c) ==> visited@.contains(c)
                            || stack@.contains(c),
                    forall|j: int, c: u32|
                        0 <= j < r && #[trigger] child_of(m, roots[j], c) ==> visited@.contains(c),
                    forall|c: u32| child_of(m, root, c) ==> visited@.contains(c) || stack@.contains(c),
                    t0 + w0.0 == targets@ + walk(m, stack@, visited@).0,
                    w0.1 == walk(m, stack@, visited@).1,
                decreases 0x1_0000_0000 - visited@.len(), stack@.len(),
            {
                let ghost old_stack = stack@;
                let ghost old_visited = visited@;
                let ghost rem = walk(m, old_stack, old_visited);
                let pid = stack.pop().unwrap();
                let ghost popped = stack@;
                assert(old_stack =~= stack@.push(pid));
                assert(old_stack.contains(pid));
                proof {
                    assert(descends_from_any(m, pid, roots));
                    assert forall|x: u32| #[trigger] old_stack.contains(x) implies x == pid || stack@.contains(x) by {
                        if old_stack.contains(x) && x != pid {
                            let k = choose|k: int| 0 <= k < old_stack.len() && old_stack[k] == x;
                            assert(stack@[k] == x);
                        }
                    }
                    assert forall|x: u32| #[trigger] stack@.contains(x) implies old_stack.contains(x) by {
                        let k = choose|k: int| 0 <= k < stack@.len() && stack@[k] == x;
                        assert(old_stack[k] == x);
                    }
                    targets@.unique_seq_to_set();
                    vstd::seq_lib::seq_to_set_is_finite(targets@);
                }
                if visited.insert(pid) {
                    let ghost before = targets@;
                    targets.push(pid);
                    proof {
                        before.lemma_push_to_set_commute(pid);
                        assert(targets@.no_duplicates()) by {
                            assert forall|a: int, b: int|
                                0 <= a < targets@.len() && 0 <= b < targets@.len() && a != b implies targets@[a]
                                != targets@[b] by {
                                if a == before.len() as int {
                                    assert(before.contains(targets@[b]));
                                } else if b == before.len() as int {
                                    assert(before.contains(targets@[a]));
                                }
                            }
                        }
                        vstd::seq_lib::seq_to_set_is_finite(targets@);
                        lemma_u32_set_len(visited@);
                    }
                    match snapshot.children_by_parent.get(&pid) {
                        Some(kids) => {
                            let ghost base = stack@;
                            let mut k: usize = 0;
                            while k < kids.len()
                                invariant
                                    k <= kids.len(),
                                    stack@ == base + kids@.take(k as int),
                                decreases kids.len() - k,
                            {
                                stack.push(kids[k]);
                                k = k + 1;
                                assert(stack@ =~= base + kids@.take(k as int));
                            }
                            assert(kids@.take(k as int) =~= kids@);
                            proof {
                                assert forall|x: u32| #[trigger] stack@.contains(x) implies descends_from_any(m, x, roots) by {
                                    if base.contains(x) {
                                        let k2 = choose|k2: int| 0 <= k2 < base.len() && base[k2] == x;
                                        assert(old_stack[k2] == x);
                                    } else {
                                        let k2 = choose|k2: int| 0 <= k2 < stack@.len() && stack@[k2] == x;
                                        if k2 < base.len() {
                                            assert(base[k2] == x);
                                        }
                                        assert(kids@[k2 - base.len()] == x);
                                        assert(child_of(m, pid, x));
                                        let j = choose|j: int| 0 <= j < roots.len() && descends_from(m, pid, #[trigger] roots[j]);
                                        lemma_extend_descent(m, pid, roots[j], x);
                                    }
                                }
                                assert forall|c: u32| #[trigger] child_of(m, pid, c) implies stack@.contains(c) by {
                                    let k2 = choose|k2: int| 0 <= k2 < kids@.len() && kids@[k2] == c;
                                    assert(stack@[base.len() + k2] == c);
                                }
                                assert forall|x: u32| base.contains(x) implies #[trigger] stack@.contains(x) by {
                                    let k2 = choose|k2: int| 0 <= k2 < base.len() && base[k2] == x;
                                    assert(stack@[k2] == x);
                                }
                            }
                        },
                        None => {},
                    }
                    proof {
                        assert(stack@ =~= popped + kids_of(m, pid));
                        assert(old_stack.drop_last() =~= popped);
                        let w = walk(m, stack@, visited@);
                        assert(rem == (seq![pid] + w.0, w.1));
                        assert(before + (seq![pid] + w.0) =~= targets@ + w.0);
                    }
                } else {
                    proof {
                        assert(old_stack.drop_last() =~= popped);
                        assert(visited@ =~= old_visited);
                        assert(rem == walk(m, stack@, visited@));
                    }
                }
            }
            proof {
                assert(targets@ + walk(m, stack@, visited@).0 =~= targets@);
            }
            r = r + 1;
        }
    }
    let ghost desc = descendants(snapshot, roots);
    proof {
        assert forall|x: u32| visited@.contains(x) <==> desc.contains(x) by {
            if let Some(s) = snapshot {
                if descends_from_any(s.children_by_parent@, x, roots) {
                    lemma_closed_holds_descendants(s.children_by_parent@, roots, visited@, x);
                }
            }
        }
        assert(visited@ =~= desc);
    }
    let ghost inner = targets@;
    let mut i: usize = 0;
    assert(roots.take(0) =~= Seq::<u32>::empty());
    assert(inner.add(Seq::<u32>::empty()) =~= inner);
    while i < root_pids.len()
        invariant
            i <= root_pids.len(),
            roots == root_pids@,
            desc == descendants(snapshot, roots),
            inner.to_set() == desc,
            targets@ == inner + first_occurrences_outside(roots.take(i as int), desc),
            visited@ == targets@.to_set(),
            visited@ == desc.union(roots.take(i as int).to_set()),
            targets@.no_duplicates(),
        decreases root_pids.len() - i,
    {
        let root = root_pids[i];
        let ghost prev = first_occurrences_outside(roots.take(i as int), desc);
        proof {
            assert(roots.take(i + 1).drop_last() =~= roots.take(i as int));
            assert(roots.take(i + 1).last() == root);
            assert(roots.take(i + 1).to_set() =~= roots.take(i as int).to_set().insert(root));
        }
        let ghost before = targets@;
        if visited.insert(root) {
            targets.push(root);
            proof {
                assert(!prev.contains(root)) by {
                    if prev.contains(root) {
                        let k = choose|k: int| 0 <= k < prev.len() && prev[k] == root;
                        assert(before[inner.len() + k] == root);
                    }
                }
                assert(targets@ =~= inner + prev.push(root));
                before.lemma_push_to_set_commute(root);
                assert forall|a: int, b: int|
                    0 <= a < targets@.len() && 0 <= b < targets@.len() && a != b implies targets@[a]
                    != targets@[b] by {
                    if a == before.len() as int {
                        assert(before.contains(targets@[b]));
                    } else if b == before.len() as int {
                        assert(before.contains(targets@[a]));
                    }
                }
            }
        } else {
            proof {
                if !desc.contains(root) {
                    assert(before.to_set().contains(root));
                    let k = choose|k: int| 0 <= k < before.len() && before[k] == root;
                    if k < inner.len() {
                        assert(inner.to_set().contains(root));
                    } else {
                        assert(prev[k - inner.len()] == root);
                    }
                }
            }
        }
        i = i + 1;
        proof {
            assert(visited@ =~= desc.union(roots.take(i as int).to_set()));
        }
    }
    proof {
        assert(roots.take(roots.len() as int) =~= roots);
        let tail = first_occurrences_outside(roots, desc);
        assert(targets@.skip(targets@.len() - tail.len()) =~= tail);
        assert(targets@.take(targets@.len() - tail.len()) =~= inner);
        assert(targets@.to_set() =~= roots.to_set().union(desc));
    }
    targets
}

} // verus!
