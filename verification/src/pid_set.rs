//! Process-id lists kept in strictly increasing order, which is what sorting and then
//! removing consecutive duplicates produces.
use vstd::prelude::*;

verus! {

/// Every element is smaller than every later one (sorted, and no duplicates).
pub open spec fn strictly_increasing(s: Seq<u32>) -> bool {
    forall|i: int, j: int| 0 <= i < j < s.len() ==> s[i] < s[j]
}

/// The entries of `s` that are not in `seen`, each once, in order of first occurrence.
pub open spec fn first_occurrences_outside(s: Seq<u32>, seen: Set<u32>) -> Seq<u32>
    decreases s.len(),
{
    if s.len() == 0 {
        Seq::empty()
    } else {
        let prev = first_occurrences_outside(s.drop_last(), seen);
        if seen.contains(s.last()) || prev.contains(s.last()) {
            prev
        } else {
            prev.push(s.last())
        }
    }
}

/// What `first_occurrences_outside` keeps comes from `s` and is outside `seen`.
pub proof fn lemma_first_occurrences_outside(s: Seq<u32>, seen: Set<u32>, x: u32)
    ensures
        first_occurrences_outside(s, seen).contains(x) ==> s.contains(x) && !seen.contains(x),
    decreases s.len(),
{
    if s.len() > 0 {
        let prev = first_occurrences_outside(s.drop_last(), seen);
        lemma_first_occurrences_outside(s.drop_last(), seen, x);
        if prev.contains(x) {
            let k = choose|k: int| 0 <= k < s.drop_last().len() && s.drop_last()[k] == x;
            assert(s[k] == x);
        }
        if first_occurrences_outside(s, seen).contains(x) && !prev.contains(x) {
            assert(x == s.last());
            assert(s[s.len() - 1] == x);
        }
    }
}

/// `first_occurrences_outside` lists no pid twice.
pub proof fn lemma_first_occurrences_distinct(s: Seq<u32>, seen: Set<u32>)
    ensures
        first_occurrences_outside(s, seen).no_duplicates(),
    decreases s.len(),
{
    if s.len() > 0 {
        lemma_first_occurrences_distinct(s.drop_last(), seen);
        let prev = first_occurrences_outside(s.drop_last(), seen);
        if !(seen.contains(s.last()) || prev.contains(s.last())) {
            let cur = prev.push(s.last());
            assert forall|a: int, b: int| 0 <= a < cur.len() && 0 <= b < cur.len() && a != b implies cur[a] != cur[b] by {
                if a == prev.len() as int {
                    assert(prev[b] == cur[b]);
                } else if b == prev.len() as int {
                    assert(prev[a] == cur[a]);
                }
            }
        }
    }
}

/// A copy of `v`.
pub fn copy_pids(v: &Vec<u32>) -> (r: Vec<u32>)
    ensures
        r@ == v@,
{
    let mut r: Vec<u32> = Vec::new();
    let mut i: usize = 0;
    while i < v.len()
        invariant
            i <= v.len(),
            r@ == v@.take(i as int),
        decreases v.len() - i,
    {
        r.push(v[i]);
        i = i + 1;
        assert(r@ =~= v@.take(i as int));
    }
    assert(v@.take(i as int) =~= v@);
    r
}

/// Whether `x` occurs in `v`.
pub fn contains_pid(v: &Vec<u32>, x: u32) -> (r: bool)
    ensures
        r == v@.contains(x),
{
    let mut i: usize = 0;
    while i < v.len()
        invariant
            i <= v.len(),
            forall|j: int| 0 <= j < i ==> v@[j] != x,
        decreases v.len() - i,
    {
        if v[i] == x {
            return true;
        }
        i = i + 1;
    }
    false
}

/// Adds `x` to a strictly increasing list, keeping it strictly increasing.
pub fn insert_pid_sorted(v: &mut Vec<u32>, x: u32)
    requires
        strictly_increasing(old(v)@),
    ensures
        strictly_increasing(final(v)@),
        final(v)@.to_set() == old(v)@.to_set().insert(x),
{
    let mut i: usize = 0;
    while i < v.len() && v[i] < x
        invariant
            i <= v.len(),
            forall|j: int| 0 <= j < i ==> v@[j] < x,
        decreases v.len() - i,
    {
        i = i + 1;
    }
    if i < v.len() && v[i] == x {
        assert(old(v)@.to_set().insert(x) =~= old(v)@.to_set());
        return;
    }
    let ghost before = v@;
    v.insert(i, x);
    proof {
        before.insert_ensures(i as int, x);
        assert forall|a: int, b: int| 0 <= a < b < v@.len() implies v@[a] < v@[b] by {
            if b < i {
            } else if b == i {
            } else if a < i {
                assert(v@[b] == before[b - 1]);
            } else if a == i {
                assert(v@[b] == before[b - 1]);
                assert(before[i as int] > x);
            } else {
                assert(v@[b] == before[b - 1]);
                assert(v@[a] == before[a - 1]);
            }
        }
        assert forall|y: u32| v@.to_set().contains(y) <==> before.to_set().insert(x).contains(y) by {
            if v@.contains(y) {
                let k = choose|k: int| 0 <= k < v@.len() && v@[k] == y;
                if k < i {
                    assert(before[k] == y);
                } else if k > i {
                    assert(before[k - 1] == y);
                }
            }
            if before.contains(y) {
                let k = choose|k: int| 0 <= k < before.len() && before[k] == y;
                if k < i {
                    assert(v@[k] == y);
                } else {
                    assert(v@[k + 1] == y);
                }
            }
            if y == x {
                assert(v@[i as int] == x);
            }
        }
        assert(v@.to_set() =~= before.to_set().insert(x));
    }
}

} // verus!
