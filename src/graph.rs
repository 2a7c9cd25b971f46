//! Counting over the task graph: occurrences of a task among successor lists,
//! pending predecessors, and completed tasks.
use crate::task::Task;
use vstd::prelude::*;

verus! {

/// How many times `x` occurs in `s`.
pub open spec fn occurrences(s: Seq<usize>, x: usize) -> nat
    decreases s.len(),
{
    if s.len() == 0 {
        0
    } else {
        (if s[0] == x {
            1nat
        } else {
            0nat
        }) + occurrences(s.subrange(1, s.len() as int), x)
    }
}

/// What task `t` contributes to the pending count of `x`: its edges to `x`
/// while it is not done.
pub open spec fn pending_term(t: Task, x: usize) -> nat {
    if t.is_done {
        0
    } else {
        occurrences(t.nxt_tis@, x)
    }
}

/// The number of edges into `x` from the first `n` tasks that are not done.
pub open spec fn pending_from(tasks: Seq<Task>, x: usize, n: nat) -> int
    decreases n,
{
    if n == 0 {
        0
    } else {
        pending_from(tasks, x, (n - 1) as nat) + pending_term(tasks[n - 1], x)
    }
}

/// The number of done tasks among the first `n`.
pub open spec fn done_count(tasks: Seq<Task>, n: nat) -> int
    decreases n,
{
    if n == 0 {
        0
    } else {
        done_count(tasks, (n - 1) as nat) + if tasks[n - 1].is_done {
            1int
        } else {
            0
        }
    }
}

/// Appending `y` adds one occurrence of `y`.
pub proof fn lemma_occurrences_push(s: Seq<usize>, y: usize, x: usize)
    ensures
        occurrences(s.push(y), x) == occurrences(s, x) + if y == x {
            1nat
        } else {
            0nat
        },
    decreases s.len(),
{
    let p = s.push(y);
    if s.len() > 0 {
        let t = s.subrange(1, s.len() as int);
        assert(p.subrange(1, p.len() as int) =~= t.push(y));
        lemma_occurrences_push(t, y, x);
        assert(p[0] == s[0]);
        assert(occurrences(p, x) == (if p[0] == x {
            1nat
        } else {
            0nat
        }) + occurrences(p.subrange(1, p.len() as int), x));
    } else {
        assert(p.subrange(1, p.len() as int) =~= Seq::<usize>::empty());
        assert(occurrences(p, x) == (if p[0] == x {
            1nat
        } else {
            0nat
        }) + occurrences(p.subrange(1, p.len() as int), x));
    }
}

/// Splitting off the first entry of a suffix.
pub proof fn lemma_occurrences_suffix(s: Seq<usize>, i: int, x: usize)
    requires
        0 <= i < s.len(),
    ensures
        occurrences(s.subrange(i, s.len() as int), x) == (if s[i] == x {
            1nat
        } else {
            0nat
        }) + occurrences(s.subrange(i + 1, s.len() as int), x),
{
    let r = s.subrange(i, s.len() as int);
    assert(r.subrange(1, r.len() as int) =~= s.subrange(i + 1, s.len() as int));
}

/// The two task sequences agree on the state and successors of every task
/// among the first `n` but `i`.
pub open spec fn agree_except(a: Seq<Task>, b: Seq<Task>, i: int, n: nat) -> bool {
    forall|u: int|
        0 <= u < n && u != i ==> (#[trigger] a[u]).is_done == b[u].is_done && a[u].nxt_tis@
            == b[u].nxt_tis@
}

/// Changing one task changes the pending count by the change of its term.
pub proof fn lemma_pending_change(a: Seq<Task>, b: Seq<Task>, x: usize, i: int, n: nat)
    requires
        n <= a.len(),
        n <= b.len(),
        agree_except(a, b, i, n),
    ensures
        pending_from(b, x, n) == pending_from(a, x, n) + if 0 <= i < n {
            pending_term(b[i], x) - pending_term(a[i], x)
        } else {
            0
        },
        pending_from(a, x, n) >= 0,
    decreases n,
{
    if n > 0 {
        lemma_pending_change(a, b, x, i, (n - 1) as nat);
    }
}

/// Changing one task changes the done count by the change of its state.
pub proof fn lemma_done_change(a: Seq<Task>, b: Seq<Task>, i: int, n: nat)
    requires
        n <= a.len(),
        n <= b.len(),
        agree_except(a, b, i, n),
    ensures
        done_count(b, n) == done_count(a, n) + if 0 <= i < n {
            (if b[i].is_done {
                1int
            } else {
                0
            }) - (if a[i].is_done {
                1int
            } else {
                0
            })
        } else {
            0
        },
        0 <= done_count(a, n) <= n,
    decreases n,
{
    if n > 0 {
        lemma_done_change(a, b, i, (n - 1) as nat);
    }
}

/// While task `i` is not done, fewer than `n` tasks are done.
pub proof fn lemma_done_below(a: Seq<Task>, i: int, n: nat)
    requires
        n <= a.len(),
        0 <= i < n,
        !a[i].is_done,
    ensures
        done_count(a, n) < n,
    decreases n,
{
    if i < n - 1 {
        lemma_done_below(a, i, (n - 1) as nat);
    } else {
        lemma_done_change(a, a, -1, (n - 1) as nat);
    }
}

/// Without edges nothing is pending.
pub proof fn lemma_pending_zero(tasks: Seq<Task>, x: usize, n: nat)
    requires
        n <= tasks.len(),
        forall|u: int| 0 <= u < n ==> (#[trigger] tasks[u]).nxt_tis@.len() == 0,
    ensures
        pending_from(tasks, x, n) == 0,
    decreases n,
{
    if n > 0 {
        lemma_pending_zero(tasks, x, (n - 1) as nat);
    }
}

} // verus!
