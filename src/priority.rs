//! Ordering the ready tasks, seeding the worker column greedily, and padding
//! both columns to one length.
use crate::optimizer::{valid_ests, width};
use crate::task::Task;
use vstd::prelude::*;

verus! {

/// Task `a` comes no later than task `b`: more successors first, then the
/// larger squared norm, then the smaller id.
pub open spec fn precedes(tasks: Seq<Task>, a: usize, b: usize) -> bool {
    let la = tasks[a as int].nxt_tis@.len();
    let lb = tasks[b as int].nxt_tis@.len();
    let na = tasks[a as int].diff_norm;
    let nb = tasks[b as int].diff_norm;
    la > lb || (la == lb && (na > nb || (na == nb && a <= b)))
}

/// `s` is in priority order.
pub open spec fn by_priority(tasks: Seq<Task>, s: Seq<usize>) -> bool {
    forall|i: int, j: int| 0 <= i < j < s.len() ==> precedes(tasks, #[trigger] s[i], #[trigger] s[j])
}

/// Every entry of `s` indexes `tasks`.
pub open spec fn indexes(s: Seq<usize>, n: nat) -> bool {
    forall|i: int| 0 <= i < s.len() ==> #[trigger] s[i] < n
}

/// `a` and `b` hold the same distinct entries.
pub open spec fn same_entries(a: Seq<usize>, b: Seq<usize>) -> bool {
    &&& a.len() == b.len()
    &&& a.no_duplicates()
    &&& forall|x: usize| a.contains(x) <==> b.contains(x)
}

fn precedes_exec(tasks: &Vec<Task>, a: usize, b: usize) -> (r: bool)
    requires
        a < tasks@.len(),
        b < tasks@.len(),
    ensures
        r == precedes(tasks@, a, b),
{
    let la = tasks[a].nxt_tis.len();
    let lb = tasks[b].nxt_tis.len();
    let na = tasks[a].diff_norm;
    let nb = tasks[b].diff_norm;
    la > lb || (la == lb && (na > nb || (na == nb && a <= b)))
}

/// Moves `pool[b]` to the end of `out`: the entries of both together stay the
/// same and stay distinct.
proof fn lemma_move_entry(out: Seq<usize>, pool: Seq<usize>, b: int)
    requires
        0 <= b < pool.len(),
        out.no_duplicates(),
        pool.no_duplicates(),
        forall|x: usize| out.contains(x) ==> !pool.contains(x),
    ensures
        out.push(pool[b]).no_duplicates(),
        pool.remove(b).no_duplicates(),
        forall|x: usize| out.push(pool[b]).contains(x) ==> !pool.remove(b).contains(x),
        forall|x: usize|
            (out.push(pool[b]).contains(x) || pool.remove(b).contains(x)) <==> (out.contains(x)
                || pool.contains(x)),
        forall|j: int|
            0 <= j < pool.remove(b).len() ==> pool.remove(b)[j] == if j < b {
                pool[j]
            } else {
                pool[j + 1]
            },
{
    let grown = out.push(pool[b]);
    let rest = pool.remove(b);
    assert forall|j: int| 0 <= j < rest.len() implies rest[j] == if j < b {
        pool[j]
    } else {
        pool[j + 1]
    } by {}
    assert(!out.contains(pool[b]));
    assert forall|x: usize| grown.contains(x) implies !rest.contains(x) by {
        if rest.contains(x) {
            let j = choose|j: int| 0 <= j < rest.len() && rest[j] == x;
            if x == pool[b] {
                if j < b {
                    assert(pool[j] == pool[b]);
                } else {
                    assert(pool[j + 1] == pool[b]);
                }
            } else {
                let i = choose|i: int| 0 <= i < grown.len() && grown[i] == x;
                assert(out[i] == x);
                assert(out.contains(x));
                if j < b {
                    assert(pool[j] == x);
                } else {
                    assert(pool[j + 1] == x);
                }
            }
        }
    }
    assert forall|x: usize|
        (grown.contains(x) || rest.contains(x)) <==> (out.contains(x) || pool.contains(x)) by {
        if pool.contains(x) {
            let i = choose|i: int| 0 <= i < pool.len() && pool[i] == x;
            if i < b {
                assert(rest[i] == x);
            } else if i > b {
                assert(rest[i - 1] == x);
            } else {
                assert(grown[out.len() as int] == x);
            }
        }
        if out.contains(x) {
            let i = choose|i: int| 0 <= i < out.len() && out[i] == x;
            assert(grown[i] == x);
        }
        if grown.contains(x) {
            let i = choose|i: int| 0 <= i < grown.len() && grown[i] == x;
            if i < out.len() {
                assert(out[i] == x);
            } else {
                assert(pool[b] == x);
            }
        }
        if rest.contains(x) {
            let j = choose|j: int| 0 <= j < rest.len() && rest[j] == x;
            if j < b {
                assert(pool[j] == x);
            } else {
                assert(pool[j + 1] == x);
            }
        }
    }
    assert forall|i: int, j: int| 0 <= i < rest.len() && 0 <= j < rest.len() && i != j implies rest[i]
        != rest[j] by {
        let si = if i < b {
            i
        } else {
            i + 1
        };
        let sj = if j < b {
            j
        } else {
            j + 1
        };
        assert(rest[i] == pool[si]);
        assert(rest[j] == pool[sj]);
    }
}

/// Orders the task ids `tis` by priority: more successors first, then the
/// larger squared norm, then the smaller id.
pub fn sort_by_priority(tasks: &Vec<Task>, tis: Vec<usize>) -> (r: Vec<usize>)
    requires
        indexes(tis@, tasks@.len()),
        tis@.no_duplicates(),
    ensures
        by_priority(tasks@, r@),
        same_entries(r@, tis@),
        indexes(r@, tasks@.len()),
{
    let ghost orig = tis@;
    let mut pool = tis;
    let mut out: Vec<usize> = Vec::new();
    while pool.len() > 0
        invariant
            indexes(pool@, tasks@.len()),
            indexes(out@, tasks@.len()),
            out@.no_duplicates(),
            pool@.no_duplicates(),
            forall|x: usize| out@.contains(x) ==> !pool@.contains(x),
            forall|x: usize| (out@.contains(x) || pool@.contains(x)) <==> orig.contains(x),
            out@.len() + pool@.len() == orig.len(),
            by_priority(tasks@, out@),
            forall|i: int, j: int|
                0 <= i < out@.len() && 0 <= j < pool@.len() ==> precedes(
                    tasks@,
                    #[trigger] out@[i],
                    #[trigger] pool@[j],
                ),
        decreases pool@.len(),
    {
        let mut b: usize = 0;
        let mut q: usize = 1;
        while q < pool.len()
            invariant
                indexes(pool@, tasks@.len()),
                pool@.len() > 0,
                b < q <= pool@.len(),
                forall|j: int| 0 <= j < q ==> precedes(tasks@, pool@[b as int], #[trigger] pool@[j]),
            decreases pool@.len() - q,
        {
            if !precedes_exec(tasks, pool[b], pool[q]) {
                b = q;
            }
            q = q + 1;
        }
        proof {
            lemma_move_entry(out@, pool@, b as int);
        }
        let ghost old_pool = pool@;
        let ghost old_out = out@;
        let x = pool.remove(b);
        out.push(x);
        assert forall|i: int, j: int|
            0 <= i < out@.len() && 0 <= j < pool@.len() implies precedes(
            tasks@,
            #[trigger] out@[i],
            #[trigger] pool@[j],
        ) by {
            if j < b {
                assert(pool@[j] == old_pool[j]);
            } else {
                assert(pool@[j] == old_pool[j + 1]);
            }
        }
    }
    out
}

/// The predicted duration of task `t` for worker `w`.
pub open spec fn cell(ests: Seq<Vec<i32>>, t: usize, w: usize) -> int {
    ests[t as int]@[w as int] as int
}

/// Builds the worker column: for each task of `tis` in turn, while free
/// workers remain, the first remaining worker with the smallest predicted
/// duration for it; then the remaining workers, last first. Each seeded
/// worker is no slower on its task than any worker after it.
pub fn seed_workers(ests: &Vec<Vec<i32>>, tis: &Vec<usize>, free: Vec<usize>) -> (ris: Vec<usize>)
    requires
        valid_ests(ests@),
        indexes(tis@, ests@.len()),
        indexes(free@, width(ests@)),
        free@.no_duplicates(),
    ensures
        same_entries(ris@, free@),
        indexes(ris@, width(ests@)),
        forall|p: int, q: int|
            #![trigger ris@[p], ris@[q]]
            0 <= p < q < ris@.len() && p < tis@.len() ==> cell(ests@, tis@[p], ris@[p]) <= cell(
                ests@,
                tis@[p],
                ris@[q],
            ),
{
    let ghost orig = free@;
    let mut pool = free;
    let mut out: Vec<usize> = Vec::new();
    let mut i: usize = 0;
    while i < tis.len() && pool.len() > 0
        invariant
            valid_ests(ests@),
            indexes(tis@, ests@.len()),
            indexes(pool@, width(ests@)),
            indexes(out@, width(ests@)),
            out@.no_duplicates(),
            pool@.no_duplicates(),
            forall|x: usize| out@.contains(x) ==> !pool@.contains(x),
            forall|x: usize| (out@.contains(x) || pool@.contains(x)) <==> orig.contains(x),
            out@.len() + pool@.len() == orig.len(),
            i <= tis@.len(),
            out@.len() == i,
            forall|p: int, q: int|
                #![trigger out@[p], out@[q]]
                0 <= p < q < out@.len() ==> cell(ests@, tis@[p], out@[p]) <= cell(
                    ests@,
                    tis@[p],
                    out@[q],
                ),
            forall|p: int, j: int|
                #![trigger out@[p], pool@[j]]
                0 <= p < out@.len() && 0 <= j < pool@.len() ==> cell(ests@, tis@[p], out@[p])
                    <= cell(ests@, tis@[p], pool@[j]),
        decreases pool@.len(),
    {
        let t = tis[i];
        assert(ests@[t as int]@.len() == width(ests@));
        let mut b: usize = 0;
        let mut q: usize = 1;
        while q < pool.len()
            invariant
                valid_ests(ests@),
                t < ests@.len(),
                ests@[t as int]@.len() == width(ests@),
                indexes(pool@, width(ests@)),
                pool@.len() > 0,
                b < q <= pool@.len(),
                forall|j: int| 0 <= j < q ==> cell(ests@, t, pool@[b as int]) <= cell(ests@, t, pool@[j]),
            decreases pool@.len() - q,
        {
            if ests[t][pool[q]] < ests[t][pool[b]] {
                b = q;
            }
            q = q + 1;
        }
        proof {
            lemma_move_entry(out@, pool@, b as int);
        }
        let ghost old_pool = pool@;
        let x = pool.remove(b);
        out.push(x);
        i = i + 1;
        assert forall|p: int, j: int|
            #![trigger out@[p], pool@[j]]
            0 <= p < out@.len() && 0 <= j < pool@.len() implies cell(ests@, tis@[p], out@[p])
            <= cell(ests@, tis@[p], pool@[j]) by {
            if j < b {
                assert(pool@[j] == old_pool[j]);
            } else {
                assert(pool@[j] == old_pool[j + 1]);
            }
        }
        assert forall|p: int, q: int|
            #![trigger out@[p], out@[q]]
            0 <= p < q < out@.len() implies cell(ests@, tis@[p], out@[p]) <= cell(
            ests@,
            tis@[p],
            out@[q],
        ) by {
            if q == out@.len() - 1 {
                assert(out@[q] == old_pool[b as int]);
            }
        }
    }
    let ghost seeded = out@.len();
    while pool.len() > 0
        invariant
            indexes(pool@, width(ests@)),
            indexes(out@, width(ests@)),
            out@.no_duplicates(),
            pool@.no_duplicates(),
            forall|x: usize| out@.contains(x) ==> !pool@.contains(x),
            forall|x: usize| (out@.contains(x) || pool@.contains(x)) <==> orig.contains(x),
            out@.len() + pool@.len() == orig.len(),
            seeded <= out@.len(),
            seeded <= tis@.len(),
            pool@.len() > 0 ==> seeded == tis@.len(),
            forall|p: int, q: int|
                #![trigger out@[p], out@[q]]
                0 <= p < q < out@.len() && p < seeded ==> cell(ests@, tis@[p], out@[p]) <= cell(
                    ests@,
                    tis@[p],
                    out@[q],
                ),
            forall|p: int, j: int|
                #![trigger out@[p], pool@[j]]
                0 <= p < seeded && 0 <= j < pool@.len() ==> cell(ests@, tis@[p], out@[p])
                    <= cell(ests@, tis@[p], pool@[j]),
        decreases pool@.len(),
    {
        let last = pool.len() - 1;
        proof {
            lemma_move_entry(out@, pool@, last as int);
        }
        let ghost old_pool = pool@;
        let x = pool.pop().unwrap();
        assert(pool@ =~= old_pool.remove(last as int));
        out.push(x);
        assert forall|p: int, q: int|
            #![trigger out@[p], out@[q]]
            0 <= p < q < out@.len() && p < seeded implies cell(ests@, tis@[p], out@[p]) <= cell(
            ests@,
            tis@[p],
            out@[q],
        ) by {
            if q == out@.len() - 1 {
                assert(out@[q] == old_pool[last as int]);
            }
        }
    }
    out
}

/// Turns the two columns into columns of holes and ids of one length: the
/// shorter one is padded with holes at its end.
pub fn pad_columns(tis: &Vec<usize>, ris: &Vec<usize>) -> (r: (Vec<Option<usize>>, Vec<Option<usize>>))
    ensures
        r.0@.len() == r.1@.len(),
        r.0@.len() == if tis@.len() >= ris@.len() {
            tis@.len()
        } else {
            ris@.len()
        },
        forall|p: int| 0 <= p < r.0@.len() ==> #[trigger] r.0@[p] == if p < tis@.len() {
            Some(tis@[p])
        } else {
            None
        },
        forall|p: int| 0 <= p < r.1@.len() ==> #[trigger] r.1@[p] == if p < ris@.len() {
            Some(ris@[p])
        } else {
            None
        },
{
    let len = if tis.len() >= ris.len() {
        tis.len()
    } else {
        ris.len()
    };
    let mut a: Vec<Option<usize>> = Vec::new();
    let mut b: Vec<Option<usize>> = Vec::new();
    let mut p: usize = 0;
    while p < len
        invariant
            len == if tis@.len() >= ris@.len() {
                tis@.len()
            } else {
                ris@.len()
            },
            p <= len,
            a@.len() == p,
            b@.len() == p,
            forall|i: int| 0 <= i < p ==> #[trigger] a@[i] == if i < tis@.len() {
                Some(tis@[i])
            } else {
                None
            },
            forall|i: int| 0 <= i < p ==> #[trigger] b@[i] == if i < ris@.len() {
                Some(ris@[i])
            } else {
                None
            },
        decreases len - p,
    {
        if p < tis.len() {
            a.push(Some(tis[p]));
        } else {
            a.push(None);
        }
        if p < ris.len() {
            b.push(Some(ris[p]));
        } else {
            b.push(None);
        }
        p = p + 1;
    }
    (a, b)
}

} // verus!
