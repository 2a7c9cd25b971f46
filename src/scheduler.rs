//! The dispatch state: the task graph, the worker pool, the estimate table
//! and the planner's generator, with one step per event of a day.
use crate::anneal::Acceptor;
use crate::estimate::{est, lemma_difficulty_estimable, lemma_est_fits, norm_sum, valid_levels};
use crate::graph::{
    agree_except, done_count, lemma_done_below, lemma_done_change, lemma_occurrences_push,
    lemma_occurrences_suffix, lemma_pending_change, lemma_pending_zero, occurrences, pending_from,
};
use crate::optimizer::{distinct_workers, optimize_assignment, valid_ests, width};
use crate::priority::{pad_columns, seed_workers, sort_by_priority};
use crate::resource::{
    every_change_improves, history_loss, valid_diffs, within_proposals, Resource, MAX_HISTORY,
};
use crate::rng::seeded_rng;
use crate::task::Task;
use rand_pcg::Mcg128Xsl64;
use vstd::prelude::*;

verus! {

/// The last day of the contest is `DAY_LIMIT − 1`.
pub const DAY_LIMIT: u64 = 2000;

/// The seed of the planner's generator.
pub const PLANNER_SEED: u64 = 37;

/// The most workers a pool holds: with `MAX_HISTORY` tasks it keeps a
/// matching's objective within `i64`.
pub const MAX_WORKERS: usize = 0xffff_ffff;

/// The number of available tasks among the first `n`.
pub open spec fn available_count(tasks: Seq<Task>, n: nat) -> nat
    decreases n,
{
    if n == 0 {
        0
    } else {
        available_count(tasks, (n - 1) as nat) + if tasks[n - 1].available() {
            1nat
        } else {
            0nat
        }
    }
}

/// A worker with no task and nothing queued.
pub open spec fn idle(r: Resource) -> bool {
    r.working_on.is_none() && r.queue@.len() == 0
}

/// The number of free workers among the first `m`.
pub open spec fn free_count(resources: Seq<Resource>, m: nat) -> nat
    decreases m,
{
    if m == 0 {
        0
    } else {
        free_count(resources, (m - 1) as nat) + if idle(resources[m - 1]) {
            1nat
        } else {
            0nat
        }
    }
}

/// The task a worker is working on, if any.
pub open spec fn works_on(r: Resource, t: int) -> bool {
    r.working_on.is_some() && r.working_on.unwrap().0 == t
}

/// The state of one planning session.
pub struct Scheduler {
    pub tasks: Vec<Task>,
    pub resources: Vec<Resource>,
    pub diffs: Vec<Vec<i32>>,
    /// `ests[t][w]`: the predicted days of task `t` for worker `w`.
    pub ests: Vec<Vec<i32>>,
    pub rng: Mcg128Xsl64,
    pub k: usize,
    pub day: i32,
}

impl Scheduler {
    /// The task vector matches the difficulties and the edges.
    pub open spec fn tasks_ok(&self) -> bool {
        let n = self.tasks@.len();
        &&& n == self.diffs@.len()
        &&& n <= MAX_HISTORY
        &&& valid_diffs(self.diffs@, self.k as nat)
        &&& forall|t: int|
            0 <= t < n ==> {
                &&& (#[trigger] self.tasks@[t]).id == t
                &&& self.tasks@[t].diff@ == self.diffs@[t]@
                &&& self.tasks@[t].diff_norm == norm_sum(self.diffs@[t]@, self.diffs@[t]@.len())
                &&& forall|j: int|
                    0 <= j < self.tasks@[t].nxt_tis@.len() ==> #[trigger] self.tasks@[t].nxt_tis@[j]
                        < n
                &&& self.tasks@[t].is_locked ==> !self.tasks@[t].is_done
            }
    }

    /// Every pending counter is the number of edges into its task from tasks
    /// that are not done.
    pub open spec fn pending_ok(&self) -> bool {
        forall|x: int|
            0 <= x < self.tasks@.len() ==> (#[trigger] self.tasks@[x]).pre_task_cnt == pending_from(
                self.tasks@,
                x as usize,
                self.tasks@.len(),
            )
    }

    /// Every worker is well formed, idle between days except for the task it
    /// works on, and has no more completions than there are done tasks.
    pub open spec fn workers_ok(&self) -> bool {
        let m = self.resources@.len();
        &&& m <= MAX_WORKERS
        &&& forall|w: int|
            0 <= w < m ==> {
                &&& (#[trigger] self.resources@[w]).id == w
                &&& self.resources@[w].wf(self.diffs@)
                &&& self.resources@[w].skills@.len() == self.k
                &&& self.resources@[w].queue@.len() == 0
                &&& self.resources@[w].history@.len() <= done_count(
                    self.tasks@,
                    self.tasks@.len(),
                )
                &&& self.resources@[w].working_on.is_some() ==> {
                    &&& self.resources@[w].working_on.unwrap().0 < self.tasks@.len()
                    &&& 0 <= self.resources@[w].working_on.unwrap().1 <= self.day
                }
            }
    }

    /// A task is locked exactly when one worker works on it.
    pub open spec fn assignment_ok(&self) -> bool {
        let m = self.resources@.len();
        &&& forall|w: int|
            0 <= w < m && (#[trigger] self.resources@[w]).working_on.is_some() ==> self.tasks@[self.resources@[w].working_on.unwrap().0 as int].is_locked
        &&& forall|w1: int, w2: int|
            0 <= w1 < m && 0 <= w2 < m && w1 != w2 && (#[trigger] self.resources@[w1]).working_on.is_some()
                && (#[trigger] self.resources@[w2]).working_on.is_some() ==> self.resources@[w1].working_on.unwrap().0
                != self.resources@[w2].working_on.unwrap().0
        &&& forall|t: int|
            0 <= t < self.tasks@.len() && (#[trigger] self.tasks@[t]).is_locked ==> exists|w: int|
                0 <= w < m && works_on(#[trigger] self.resources@[w], t)
    }

    /// The estimate table agrees with the current skills.
    pub open spec fn ests_ok(&self) -> bool {
        &&& self.ests@.len() == self.tasks@.len()
        &&& forall|t: int|
            0 <= t < self.ests@.len() ==> (#[trigger] self.ests@[t])@.len() == self.resources@.len()
        &&& forall|t: int, w: int|
            0 <= t < self.ests@.len() && 0 <= w < self.resources@.len() ==> #[trigger] self.ests@[t]@[w]
                == est(self.diffs@[t]@, (#[trigger] self.resources@[w]).skills@)
    }

    /// The invariant of the session.
    pub open spec fn inv(&self) -> bool {
        &&& self.tasks_ok()
        &&& self.pending_ok()
        &&& self.workers_ok()
        &&& self.assignment_ok()
        &&& self.ests_ok()
        &&& 0 <= self.day < i32::MAX
    }

    /// The row of predicted days of task `t` for every worker.
    fn est_row(resources: &Vec<Resource>, diffs: &Vec<Vec<i32>>, t: usize, k: usize) -> (row: Vec<i32>)
        requires
            valid_diffs(diffs@, k as nat),
            t < diffs@.len(),
            forall|w: int|
                0 <= w < resources@.len() ==> (#[trigger] resources@[w]).skills@.len() == k
                    && valid_levels(resources@[w].skills@),
        ensures
            row@.len() == resources@.len(),
            forall|w: int|
                0 <= w < resources@.len() ==> #[trigger] row@[w] == est(diffs@[t as int]@, resources@[w].skills@),
    {
        let mut row: Vec<i32> = Vec::new();
        let mut w: usize = 0;
        while w < resources.len()
            invariant
                valid_diffs(diffs@, k as nat),
                t < diffs@.len(),
                forall|w: int|
                    0 <= w < resources@.len() ==> (#[trigger] resources@[w]).skills@.len() == k
                        && valid_levels(resources@[w].skills@),
                w <= resources@.len(),
                row@.len() == w,
                forall|v: int| 0 <= v < w ==> #[trigger] row@[v] == est(diffs@[t as int]@, resources@[v].skills@),
            decreases resources@.len() - w,
        {
            proof {
                lemma_difficulty_estimable(diffs@[t as int]@, resources@[w as int].skills@);
            }
            let e = resources[w].get_est_elapsed_days(&diffs[t]);
            row.push(e);
            w = w + 1;
        }
        row
    }

    /// A session over tasks of difficulties `diffs` (each of `k` levels), the
    /// precedence edges `edges` (`u → v`, zero-based) and the workers
    /// `resources`, on day 0. Each task's successors are the targets of its
    /// edges in input order, and its pending count is its number of incoming
    /// edges.
    pub fn new(
        diffs: Vec<Vec<i32>>,
        edges: &Vec<(usize, usize)>,
        resources: Vec<Resource>,
        k: usize,
    ) -> (r: Scheduler)
        requires
            valid_diffs(diffs@, k as nat),
            diffs@.len() <= MAX_HISTORY,
            resources@.len() <= MAX_WORKERS,
            forall|e: int|
                0 <= e < edges@.len() ==> (#[trigger] edges@[e]).0 < diffs@.len() && edges@[e].1
                    < diffs@.len(),
            forall|w: int|
                0 <= w < resources@.len() ==> {
                    &&& (#[trigger] resources@[w]).id == w
                    &&& resources@[w].skills@.len() == k
                    &&& valid_levels(resources@[w].skills@)
                    &&& resources@[w].queue@.len() == 0
                    &&& resources@[w].working_on.is_none()
                    &&& resources@[w].history@.len() == 0
                },
        ensures
            r.inv(),
            r.day == 0,
            r.k == k,
            r.diffs@ == diffs@,
            r.resources@ == resources@,
            r.tasks@.len() == diffs@.len(),
            forall|t: int|
                0 <= t < r.tasks@.len() ==> {
                    &&& !(#[trigger] r.tasks@[t]).is_locked
                    &&& !r.tasks@[t].is_done
                    &&& r.tasks@[t].nxt_tis@ == successors(edges@, t as usize, edges@.len())
                    &&& r.tasks@[t].pre_task_cnt == incoming(edges@, t as usize, edges@.len())
                },
    {
        let n = diffs.len();
        let mut tasks: Vec<Task> = Vec::new();
        let mut i: usize = 0;
        while i < n
            invariant
                n == diffs@.len(),
                valid_diffs(diffs@, k as nat),
                i <= n,
                tasks@.len() == i,
                forall|t: int|
                    0 <= t < i ==> {
                        &&& (#[trigger] tasks@[t]).id == t
                        &&& tasks@[t].diff@ == diffs@[t]@
                        &&& tasks@[t].diff_norm == norm_sum(diffs@[t]@, diffs@[t]@.len())
                        &&& tasks@[t].nxt_tis@ == Seq::<usize>::empty()
                        &&& tasks@[t].pre_task_cnt == 0
                        &&& !tasks@[t].is_locked
                        &&& !tasks@[t].is_done
                    },
            decreases n - i,
        {
            let t = Task::new(i, &diffs[i]);
            tasks.push(t);
            i = i + 1;
        }
        proof {
            assert forall|x: usize| x < n implies #[trigger] pending_from(tasks@, x, n as nat)
                == 0 by {
                lemma_pending_zero(tasks@, x, n as nat);
            }
        }
        let mut j: usize = 0;
        while j < edges.len()
            invariant
                n == diffs@.len() == tasks@.len(),
                forall|e: int|
                    0 <= e < edges@.len() ==> (#[trigger] edges@[e]).0 < n && edges@[e].1 < n,
                j <= edges@.len(),
                forall|t: int|
                    0 <= t < n ==> {
                        &&& (#[trigger] tasks@[t]).id == t
                        &&& tasks@[t].diff@ == diffs@[t]@
                        &&& tasks@[t].diff_norm == norm_sum(diffs@[t]@, diffs@[t]@.len())
                        &&& tasks@[t].nxt_tis@ == successors(edges@, t as usize, j as nat)
                        &&& forall|q: int|
                            0 <= q < tasks@[t].nxt_tis@.len() ==> #[trigger] tasks@[t].nxt_tis@[q]
                                < n
                        &&& tasks@[t].pre_task_cnt == incoming(edges@, t as usize, j as nat)
                        &&& tasks@[t].pre_task_cnt <= j
                        &&& tasks@[t].pre_task_cnt == pending_from(tasks@, t as usize, n as nat)
                        &&& !tasks@[t].is_locked
                        &&& !tasks@[t].is_done
                    },
            decreases edges@.len() - j,
        {
            let (u, v) = edges[j];
            let ghost a = tasks@;
            tasks[u].nxt_tis.push(v);
            let ghost b = tasks@;
            proof {
                assert(agree_except(a, b, u as int, n as nat));
                assert forall|x: usize| x < n implies #[trigger] pending_from(b, x, n as nat)
                    == pending_from(a, x, n as nat) + if x == v {
                    1int
                } else {
                    0
                } by {
                    lemma_pending_change(a, b, x, u as int, n as nat);
                    lemma_occurrences_push(a[u as int].nxt_tis@, v, x);
                }
            }
            tasks[v].pre_task_cnt = tasks[v].pre_task_cnt + 1;
            let ghost c = tasks@;
            proof {
                assert forall|x: usize| x < n implies #[trigger] pending_from(c, x, n as nat)
                    == pending_from(b, x, n as nat) by {
                    assert(agree_except(b, c, -1, n as nat));
                    lemma_pending_change(b, c, x, -1, n as nat);
                }
            }
            j = j + 1;
        }
        let mut ests: Vec<Vec<i32>> = Vec::new();
        let mut t: usize = 0;
        while t < n
            invariant
                n == diffs@.len(),
                valid_diffs(diffs@, k as nat),
                forall|w: int|
                    0 <= w < resources@.len() ==> (#[trigger] resources@[w]).skills@.len() == k
                        && valid_levels(resources@[w].skills@),
                t <= n,
                ests@.len() == t,
                forall|s: int| 0 <= s < t ==> (#[trigger] ests@[s])@.len() == resources@.len(),
                forall|s: int, w: int|
                    0 <= s < t && 0 <= w < resources@.len() ==> #[trigger] ests@[s]@[w] == est(
                        diffs@[s]@,
                        (#[trigger] resources@[w]).skills@,
                    ),
            decreases n - t,
        {
            let row = Self::est_row(&resources, &diffs, t, k);
            ests.push(row);
            t = t + 1;
        }
        proof {
            lemma_done_change(tasks@, tasks@, -1, n as nat);
        }
        let rng = seeded_rng(PLANNER_SEED);
        Scheduler { tasks, resources, diffs, ests, rng, k, day: 0 }
    }

    /// Refreshes the estimate column of worker `w` from its current skills.
    fn refresh_column(&mut self, w: usize)
        requires
            old(self).tasks_ok(),
            old(self).ests@.len() == old(self).tasks@.len(),
            forall|t: int|
                0 <= t < old(self).ests@.len() ==> (#[trigger] old(self).ests@[t])@.len()
                    == old(self).resources@.len(),
            w < old(self).resources@.len(),
            old(self).resources@[w as int].skills@.len() == old(self).k,
            valid_levels(old(self).resources@[w as int].skills@),
        ensures
            final(self).tasks == old(self).tasks,
            final(self).resources == old(self).resources,
            final(self).diffs == old(self).diffs,
            final(self).k == old(self).k,
            final(self).day == old(self).day,
            final(self).ests@.len() == old(self).ests@.len(),
            forall|t: int|
                0 <= t < final(self).ests@.len() ==> (#[trigger] final(self).ests@[t])@.len()
                    == old(self).resources@.len(),
            forall|t: int, v: int|
                0 <= t < final(self).ests@.len() && 0 <= v < old(self).resources@.len() ==> #[trigger] final(self).ests@[t]@[v]
                    == if v == w {
                    est(old(self).diffs@[t]@, old(self).resources@[w as int].skills@) as i32
                } else {
                    old(self).ests@[t]@[v]
                },
    {
        let n = self.tasks.len();
        let mut t: usize = 0;
        while t < n
            invariant
                self.tasks == old(self).tasks,
                self.resources == old(self).resources,
                self.diffs == old(self).diffs,
                self.k == old(self).k,
                self.day == old(self).day,
                old(self).tasks_ok(),
                n == self.tasks@.len() == self.ests@.len(),
                w < self.resources@.len(),
                self.resources@[w as int].skills@.len() == self.k,
                valid_levels(self.resources@[w as int].skills@),
                t <= n,
                forall|s: int|
                    0 <= s < self.ests@.len() ==> (#[trigger] self.ests@[s])@.len()
                        == old(self).resources@.len(),
                forall|s: int, v: int|
                    0 <= s < n && 0 <= v < old(self).resources@.len() ==> #[trigger] self.ests@[s]@[v]
                        == if v == w && s < t {
                        est(old(self).diffs@[s]@, old(self).resources@[w as int].skills@) as i32
                    } else {
                        old(self).ests@[s]@[v]
                    },
            decreases n - t,
        {
            proof {
                assert(self.diffs@[t as int]@.len() == self.k);
            }
            proof {
                lemma_difficulty_estimable(self.diffs@[t as int]@, self.resources@[w as int].skills@);
            }
            let e = self.resources[w].get_est_elapsed_days(&self.diffs[t]);
            self.ests[t].set(w, e);
            t = t + 1;
        }
    }

    /// Handles the report that worker `w` finished its task today: the task
    /// is appended to the worker's history with its duration, it is done, each
    /// of its successors loses one pending predecessor per edge, the worker's
    /// skills are re-fit with `annealer` (never raising their loss), and the
    /// worker's estimate column is refreshed. Returns the task.
    pub fn complete_worker<A: Acceptor>(&mut self, w: usize, annealer: &mut A) -> (ti: usize)
        requires
            old(self).inv(),
            w < old(self).resources@.len(),
            old(self).resources@[w as int].working_on.is_some(),
        ensures
            final(self).inv(),
            ti == old(self).resources@[w as int].working_on.unwrap().0,
            final(self).tasks@[ti as int].is_done,
            !final(self).tasks@[ti as int].is_locked,
            final(self).resources@[w as int].working_on.is_none(),
            final(self).resources@[w as int].history@ == old(self).resources@[w as int].history@.push(
                (ti, (old(self).day - old(self).resources@[w as int].working_on.unwrap().1 + 1) as i32),
            ),
            history_loss(
                final(self).resources@[w as int].history@,
                final(self).diffs@,
                final(self).resources@[w as int].skills@,
            ) <= history_loss(
                final(self).resources@[w as int].history@,
                final(self).diffs@,
                old(self).resources@[w as int].skills@,
            ),
            within_proposals(
                final(self).resources@[w as int].skills@,
                old(self).resources@[w as int].skills@,
            ),
            old(self).k > 0 && every_change_improves(
                final(self).resources@[w as int].history@,
                final(self).diffs@,
                old(self).resources@[w as int].skills@,
            ) ==> history_loss(
                final(self).resources@[w as int].history@,
                final(self).diffs@,
                final(self).resources@[w as int].skills@,
            ) < history_loss(
                final(self).resources@[w as int].history@,
                final(self).diffs@,
                old(self).resources@[w as int].skills@,
            ),
            final(self).day == old(self).day,
            final(self).k == old(self).k,
            final(self).diffs == old(self).diffs,
            final(self).tasks@.len() == old(self).tasks@.len(),
            final(self).resources@.len() == old(self).resources@.len(),
            forall|v: int|
                0 <= v < final(self).resources@.len() && v != w ==> #[trigger] final(self).resources@[v]
                    == old(self).resources@[v],
            forall|t: int|
                0 <= t < final(self).tasks@.len() && t != ti ==> (#[trigger] final(self).tasks@[t]).is_done
                    == old(self).tasks@[t].is_done && final(self).tasks@[t].is_locked
                    == old(self).tasks@[t].is_locked,
            forall|x: int|
                0 <= x < final(self).tasks@.len() ==> (#[trigger] final(self).tasks@[x]).pre_task_cnt
                    == old(self).tasks@[x].pre_task_cnt - occurrences(
                    old(self).tasks@[ti as int].nxt_tis@,
                    x as usize,
                ),
            old(self).tasks@[ti as int].nxt_tis@.len() == 0 ==> forall|x: int|
                0 <= x < final(self).tasks@.len() ==> (#[trigger] final(self).tasks@[x]).pre_task_cnt
                    == old(self).tasks@[x].pre_task_cnt,
    {
        let n = self.tasks.len();
        let ghost t0 = self.tasks@;
        let ghost r0 = self.resources@;
        let ghost ti0 = r0[w as int].working_on.unwrap().0 as int;
        proof {
            assert(self.resources@[w as int].wf(self.diffs@));
            lemma_done_below(t0, ti0, n as nat);
        }
        let ti = self.resources[w].complete_task(self.day);
        let ghost r1 = self.resources@;
        proof {
            assert(self.resources@[w as int].wf(self.diffs@));
        }
        let ghost t_before = self.tasks@;
        let succ = self.tasks[ti].complete();
        let ghost mid = self.tasks@;
        proof {
            assert(agree_except(t_before, mid, ti as int, n as nat));
            lemma_done_change(t_before, mid, ti as int, n as nat);
            assert forall|x: usize| x < n implies #[trigger] pending_from(t_before, x, n as nat)
                == pending_from(mid, x, n as nat) + occurrences(succ@.subrange(0, succ@.len() as int), x) by {
                lemma_pending_change(t_before, mid, x, ti as int, n as nat);
                assert(succ@.subrange(0, succ@.len() as int) =~= succ@);
            }
        }
        let mut i: usize = 0;
        while i < succ.len()
            invariant
                n == self.tasks@.len() == mid.len(),
                i <= succ@.len(),
                succ@ == mid[ti as int].nxt_tis@,
                ti < n,
                forall|j: int| 0 <= j < succ@.len() ==> #[trigger] succ@[j] < n,
                self.resources@ == r1,
                self.diffs == old(self).diffs,
                self.ests == old(self).ests,
                self.k == old(self).k,
                self.day == old(self).day,
                forall|t: int|
                    0 <= t < n ==> {
                        &&& (#[trigger] self.tasks@[t]).id == mid[t].id
                        &&& self.tasks@[t].diff == mid[t].diff
                        &&& self.tasks@[t].diff_norm == mid[t].diff_norm
                        &&& self.tasks@[t].nxt_tis == mid[t].nxt_tis
                        &&& self.tasks@[t].is_locked == mid[t].is_locked
                        &&& self.tasks@[t].is_done == mid[t].is_done
                    },
                forall|x: usize|
                    x < n ==> #[trigger] self.tasks@[x as int].pre_task_cnt == pending_from(mid, x, n as nat)
                        + occurrences(succ@.subrange(i as int, succ@.len() as int), x),
            decreases succ@.len() - i,
        {
            let s = succ[i];
            proof {
                lemma_occurrences_suffix(succ@, i as int, s);
                lemma_pending_change(mid, mid, s, -1, n as nat);
            }
            let ghost before = self.tasks@;
            self.tasks[s].pre_task_cnt = self.tasks[s].pre_task_cnt - 1;
            proof {
                assert forall|x: usize| x < n implies #[trigger] self.tasks@[x as int].pre_task_cnt
                    == pending_from(mid, x, n as nat) + occurrences(
                    succ@.subrange(i + 1, succ@.len() as int),
                    x,
                ) by {
                    lemma_occurrences_suffix(succ@, i as int, x);
                }
            }
            i = i + 1;
        }
        proof {
            assert(agree_except(mid, self.tasks@, -1, n as nat));
            assert forall|x: usize| x < n implies #[trigger] pending_from(self.tasks@, x, n as nat)
                == pending_from(mid, x, n as nat) by {
                lemma_pending_change(mid, self.tasks@, x, -1, n as nat);
                assert(succ@.subrange(succ@.len() as int, succ@.len() as int) =~= Seq::<usize>::empty());
            }
            lemma_done_change(mid, self.tasks@, -1, n as nat);
        }
        self.resources[w].optimize_skills(&self.diffs, annealer);
        self.refresh_column(w);
        proof {
            assert forall|x: int| 0 <= x < self.tasks@.len() implies (#[trigger] self.tasks@[x]).pre_task_cnt
                == pending_from(self.tasks@, x as usize, self.tasks@.len()) by {
                assert(self.tasks@[(x as usize) as int].pre_task_cnt == pending_from(mid, x as usize, n as nat)
                    + occurrences(succ@.subrange(succ@.len() as int, succ@.len() as int), x as usize));
                assert(succ@.subrange(succ@.len() as int, succ@.len() as int) =~= Seq::<usize>::empty());
                assert(pending_from(self.tasks@, x as usize, n as nat) == pending_from(mid, x as usize, n as nat));
            }
            assert forall|t: int|
                0 <= t < self.tasks@.len() && (#[trigger] self.tasks@[t]).is_locked implies exists|v: int|
                0 <= v < self.resources@.len() && works_on(#[trigger] self.resources@[v], t) by {
                assert(t0[t].is_locked);
                let v = choose|v: int| 0 <= v < r0.len() && works_on(#[trigger] r0[v], t);
                assert(v != w);
                assert(works_on(self.resources@[v], t));
            }
            assert forall|x: int| 0 <= x < self.tasks@.len() implies (#[trigger] self.tasks@[x]).pre_task_cnt
                == t0[x].pre_task_cnt - occurrences(t0[ti as int].nxt_tis@, x as usize) by {
                assert(t_before == t0);
                assert(succ@.subrange(0, succ@.len() as int) =~= succ@);
                assert(t0[x].pre_task_cnt == pending_from(t0, x as usize, n as nat));
                assert(pending_from(t_before, x as usize, n as nat) == pending_from(mid, x as usize, n as nat)
                    + occurrences(succ@.subrange(0, succ@.len() as int), x as usize));
            }
            if t0[ti as int].nxt_tis@.len() == 0 {
                assert forall|x: int| 0 <= x < self.tasks@.len() implies (#[trigger] self.tasks@[x]).pre_task_cnt
                    == t0[x].pre_task_cnt by {
                    assert(occurrences(t0[ti as int].nxt_tis@, x as usize) == 0);
                }
            }
            assert forall|t: int, v: int|
                0 <= t < self.ests@.len() && 0 <= v < self.resources@.len() implies #[trigger] self.ests@[t]@[v]
                == est(self.diffs@[t]@, (#[trigger] self.resources@[v]).skills@) by {
                assert(self.diffs@[t]@.len() == self.k);
                lemma_est_fits(self.diffs@[t]@, self.resources@[v].skills@);
            }
        }
        ti
    }

    /// Plans and starts the day: sets `global`'s progress to
    /// `day / (DAY_LIMIT − 1)`, orders the available tasks by priority, seeds
    /// the free workers greedily, refines the matching by a swap search driven
    /// by the planner's generator and `fresh`, then locks and starts each
    /// matched pair. Returns the started pairs `(worker, task)` in increasing
    /// worker order; none when no task is available or no worker is free.
    #[verifier::rlimit(60)]
    pub fn plan_day<G: Acceptor, A: Acceptor>(&mut self, global: &mut G, fresh: &mut A) -> (started:
        Vec<(usize, usize)>)
        requires
            old(self).inv(),
        ensures
            final(self).inv(),
            final(self).day == old(self).day,
            final(self).k == old(self).k,
            final(self).diffs == old(self).diffs,
            final(self).ests == old(self).ests,
            final(self).tasks@.len() == old(self).tasks@.len(),
            final(self).resources@.len() == old(self).resources@.len(),
            forall|i: int|
                0 <= i < started@.len() ==> {
                    let (w, t) = #[trigger] started@[i];
                    &&& w < old(self).resources@.len()
                    &&& t < old(self).tasks@.len()
                    &&& old(self).resources@[w as int].working_on.is_none()
                    &&& old(self).tasks@[t as int].available()
                    &&& final(self).resources@[w as int].working_on == Some((t, old(self).day))
                    &&& final(self).tasks@[t as int].is_locked
                },
            forall|i: int, j: int|
                0 <= i < j < started@.len() ==> (#[trigger] started@[i]).0 < (#[trigger] started@[j]).0
                    && started@[i].1 != started@[j].1,
            forall|w: int|
                0 <= w < final(self).resources@.len() ==> {
                    &&& (#[trigger] final(self).resources@[w]).skills == old(self).resources@[w].skills
                    &&& final(self).resources@[w].history == old(self).resources@[w].history
                    &&& old(self).resources@[w].working_on.is_some()
                        ==> final(self).resources@[w].working_on == old(self).resources@[w].working_on
                },
            forall|t: int|
                0 <= t < final(self).tasks@.len() ==> (#[trigger] final(self).tasks@[t]).is_done
                    == old(self).tasks@[t].is_done && final(self).tasks@[t].pre_task_cnt
                    == old(self).tasks@[t].pre_task_cnt,
            (forall|t: int| 0 <= t < old(self).tasks@.len() ==> !(#[trigger] old(self).tasks@[t]).available())
                ==> started@.len() == 0,
            (forall|w: int|
                0 <= w < old(self).resources@.len() ==> (#[trigger] old(self).resources@[w]).working_on.is_some())
                ==> started@.len() == 0,
            available_count(old(self).tasks@, old(self).tasks@.len()) >= free_count(
                old(self).resources@,
                old(self).resources@.len(),
            ) ==> forall|w: int|
                0 <= w < old(self).resources@.len() && idle(#[trigger] old(self).resources@[w])
                    ==> final(self).resources@[w].working_on.is_some(),
            available_count(old(self).tasks@, old(self).tasks@.len()) <= free_count(
                old(self).resources@,
                old(self).resources@.len(),
            ) ==> forall|t: int|
                0 <= t < old(self).tasks@.len() && (#[trigger] old(self).tasks@[t]).available()
                    ==> final(self).tasks@[t].is_locked,
    {
        global.set_progress(self.day as u64, DAY_LIMIT - 1);
        let n = self.tasks.len();
        let m = self.resources.len();
        let tis = self.available_tasks();
        let free = self.free_workers();
        if tis.len() == 0 || free.len() == 0 {
            proof {
                if exists|t: int| 0 <= t < n && (#[trigger] self.tasks@[t]).available() {
                    let t = choose|t: int| 0 <= t < n && (#[trigger] self.tasks@[t]).available();
                    assert(tis@.contains(t as usize));
                }
                if exists|w: int| 0 <= w < m && (#[trigger] self.resources@[w]).working_on.is_none() {
                    let w = choose|w: int| 0 <= w < m && (#[trigger] self.resources@[w]).working_on.is_none();
                    assert(free@.contains(w as usize));
                }
                assert forall|w: int| 0 <= w < m && idle(#[trigger] self.resources@[w]) implies free@.len() > 0 by {
                    if idle(self.resources@[w]) {
                        assert(free@.contains(w as usize));
                    }
                }
            }
            return Vec::new();
        }
        proof {
            assert(tis@.no_duplicates());
            assert(free@.no_duplicates());
            assert(tis@[0] < n);
            lemma_increasing_len(tis@, n as nat);
            lemma_increasing_len(free@, m as nat);
            assert(self.ests@[0]@.len() == m);
            assert(width(self.ests@) == m);
            assert forall|t: int|
                0 <= t < self.ests@.len() implies (#[trigger] self.ests@[t])@.len() == width(self.ests@)
                && forall|w: int| 0 <= w < width(self.ests@) ==> 0 <= #[trigger] self.ests@[t]@[w] by {
                assert forall|w: int| 0 <= w < width(self.ests@) implies 0 <= #[trigger] self.ests@[t]@[w] by {
                    assert(0 <= est(self.diffs@[t]@, self.resources@[w].skills@)) by {
                        crate::estimate::lemma_est_at_least_one(self.diffs@[t]@, self.resources@[w].skills@);
                    }
                }
            }
            assert(valid_ests(self.ests@));
        }
        let sorted = sort_by_priority(&self.tasks, tis);
        let ris = seed_workers(&self.ests, &sorted, free);
        let (tcol, rcol) = pad_columns(&sorted, &ris);
        proof {
            assert(distinct_workers(rcol@));
            assert(distinct_workers(tcol@));
        }
        let ghost rcol_start = rcol@;
        let best = optimize_assignment(&self.ests, &tcol, rcol, &mut self.rng, fresh);
        let assign = pairs_by_worker(&tcol, &best, m);
        proof {
            assert forall|w: int| 0 <= w < m && (#[trigger] assign@[w]).is_some() implies {
                &&& assign@[w].unwrap() < n
                &&& self.tasks@[assign@[w].unwrap() as int].available()
                &&& self.resources@[w].working_on.is_none()
                &&& self.resources@[w].queue@.len() == 0
            } by {
                let p = choose|p: int|
                    0 <= p < tcol@.len() && tcol@[p] == assign@[w] && #[trigger] best@[p] == Some(w as usize);
                assert(p < sorted@.len());
                assert(sorted@.contains(assign@[w].unwrap()));
                assert(rcol@.contains(best@[p]));
                let q = choose|q: int| 0 <= q < rcol@.len() && rcol@[q] == best@[p];
                assert(q < ris@.len());
                assert(ris@.contains(w as usize));
            }
        }
        let started = self.start_assigned(&assign);
        let ghost t0 = old(self).tasks@;
        let ghost r0 = old(self).resources@;
        proof {
            if started@.len() > 0 {
                let (v, t) = started@[0];
                assert(t0[t as int].available());
                assert(r0[v as int].working_on.is_none());
            }
            if tis@.len() >= free@.len() {
                assert forall|v: int| 0 <= v < m && idle(#[trigger] r0[v]) implies self.resources@[v].working_on.is_some() by {
                    assert(free@.contains(v as usize));
                    assert(ris@.contains(v as usize));
                    let q = choose|q: int| 0 <= q < ris@.len() && ris@[q] == v as usize;
                    assert(rcol_start[q] == Some(v as usize));
                    assert(best@.contains(rcol_start[q]));
                    let p = choose|p: int| 0 <= p < best@.len() && best@[p] == Some(v as usize);
                    assert(tcol@[p] == Some(sorted@[p]));
                    assert(assign@[v] == tcol@[p]);
                }
            }
            if tis@.len() <= free@.len() {
                assert forall|t: int| 0 <= t < n && (#[trigger] t0[t]).available() implies self.tasks@[t].is_locked by {
                    assert(tis@.contains(t as usize));
                    assert(sorted@.contains(t as usize));
                    let p = choose|p: int| 0 <= p < sorted@.len() && sorted@[p] == t as usize;
                    assert(tcol@[p] == Some(t as usize));
                    assert(rcol_start.contains(best@[p]));
                    let q = choose|q: int| 0 <= q < rcol_start.len() && rcol_start[q] == best@[p];
                    assert(best@[p].is_some());
                    let v = best@[p].unwrap() as int;
                    assert(assign@[v] == tcol@[p]);
                }
            }
        }
        started
    }

    /// Moves on to the next day.
    pub fn advance_day(&mut self)
        requires
            old(self).inv(),
            old(self).day < i32::MAX - 1,
        ensures
            final(self).inv(),
            final(self).day == old(self).day + 1,
            final(self).tasks == old(self).tasks,
            final(self).resources == old(self).resources,
            final(self).diffs == old(self).diffs,
            final(self).ests == old(self).ests,
            final(self).k == old(self).k,
    {
        self.day = self.day + 1;
    }

    /// Locks and starts, worker by worker, the task that `assign` gives each
    /// worker.
    fn start_assigned(&mut self, assign: &Vec<Option<usize>>) -> (started: Vec<(usize, usize)>)
        requires
            old(self).inv(),
            assign@.len() == old(self).resources@.len(),
            forall|v1: int, v2: int|
                0 <= v1 < assign@.len() && 0 <= v2 < assign@.len() && v1 != v2 && (#[trigger] assign@[v1]).is_some()
                    ==> assign@[v1] != #[trigger] assign@[v2],
            forall|v: int| 0 <= v < assign@.len() && (#[trigger] assign@[v]).is_some() ==> {
                &&& assign@[v].unwrap() < old(self).tasks@.len()
                &&& old(self).tasks@[assign@[v].unwrap() as int].available()
                &&& old(self).resources@[v].working_on.is_none()
                &&& old(self).resources@[v].queue@.len() == 0
            },
        ensures
            final(self).inv(),
            final(self).day == old(self).day,
            final(self).k == old(self).k,
            final(self).diffs == old(self).diffs,
            final(self).ests == old(self).ests,
            final(self).tasks@.len() == old(self).tasks@.len(),
            final(self).resources@.len() == old(self).resources@.len(),
            forall|i: int|
                0 <= i < started@.len() ==> {
                    let (v, t) = #[trigger] started@[i];
                    &&& v < old(self).resources@.len()
                    &&& t < old(self).tasks@.len()
                    &&& old(self).resources@[v as int].working_on.is_none()
                    &&& old(self).tasks@[t as int].available()
                    &&& final(self).resources@[v as int].working_on == Some((t, old(self).day))
                    &&& final(self).tasks@[t as int].is_locked
                    &&& assign@[v as int] == Some(t)
                },
            forall|i: int, j: int|
                0 <= i < j < started@.len() ==> (#[trigger] started@[i]).0 < (#[trigger] started@[j]).0,
            forall|v: int|
                0 <= v < final(self).resources@.len() ==> {
                    &&& (#[trigger] final(self).resources@[v]).skills == old(self).resources@[v].skills
                    &&& final(self).resources@[v].history == old(self).resources@[v].history
                    &&& old(self).resources@[v].working_on.is_some()
                        ==> final(self).resources@[v].working_on == old(self).resources@[v].working_on
                },
            forall|t: int|
                0 <= t < final(self).tasks@.len() ==> (#[trigger] final(self).tasks@[t]).is_done
                    == old(self).tasks@[t].is_done && final(self).tasks@[t].pre_task_cnt
                    == old(self).tasks@[t].pre_task_cnt,
            forall|v: int|
                0 <= v < assign@.len() && (#[trigger] assign@[v]).is_some() ==> final(self).resources@[v].working_on.is_some()
                    && final(self).tasks@[assign@[v].unwrap() as int].is_locked,
    {
        let m = self.resources.len();
        let n = self.tasks.len();
        let mut started: Vec<(usize, usize)> = Vec::new();
        let ghost t0 = self.tasks@;
        let ghost r0 = self.resources@;
        let mut w: usize = 0;
        while w < m
            invariant
                self.inv(),
                m == self.resources@.len() == r0.len(),
                n == self.tasks@.len() == t0.len(),
                assign@.len() == m,
                w <= m,
                self.day == old(self).day,
                self.k == old(self).k,
                self.diffs == old(self).diffs,
                self.ests == old(self).ests,
                forall|v1: int, v2: int|
                    0 <= v1 < m && 0 <= v2 < m && v1 != v2 && (#[trigger] assign@[v1]).is_some()
                        ==> assign@[v1] != #[trigger] assign@[v2],
                forall|v: int| w <= v < m && (#[trigger] assign@[v]).is_some() ==> {
                    &&& assign@[v].unwrap() < n
                    &&& self.tasks@[assign@[v].unwrap() as int].available()
                    &&& self.resources@[v].working_on.is_none()
                    &&& self.resources@[v].queue@.len() == 0
                },
                forall|v: int| w <= v < m ==> #[trigger] self.resources@[v] == r0[v],
                forall|v: int|
                    0 <= v < m ==> {
                        &&& (#[trigger] self.resources@[v]).skills == r0[v].skills
                        &&& self.resources@[v].history == r0[v].history
                        &&& r0[v].working_on.is_some() ==> self.resources@[v].working_on == r0[v].working_on
                    },
                forall|t: int| 0 <= t < n ==> (#[trigger] self.tasks@[t]).is_done == t0[t].is_done
                    && self.tasks@[t].pre_task_cnt == t0[t].pre_task_cnt,
                forall|t: int| 0 <= t < n && (#[trigger] self.tasks@[t]).available() ==> t0[t].available(),
                forall|i: int|
                    0 <= i < started@.len() ==> {
                        let (v, t) = #[trigger] started@[i];
                        &&& v < w
                        &&& t < n
                        &&& r0[v as int].working_on.is_none()
                        &&& t0[t as int].available()
                        &&& self.resources@[v as int].working_on == Some((t, self.day))
                        &&& self.tasks@[t as int].is_locked
                        &&& assign@[v as int] == Some(t)
                    },
                forall|i: int, j: int|
                    0 <= i < j < started@.len() ==> (#[trigger] started@[i]).0 < (#[trigger] started@[j]).0,
                forall|v: int| 0 <= v < m && (#[trigger] assign@[v]).is_some() ==> assign@[v].unwrap() < n,
                forall|v: int|
                    0 <= v < w && (#[trigger] assign@[v]).is_some() ==> self.resources@[v].working_on.is_some()
                        && self.tasks@[assign@[v].unwrap() as int].is_locked,
            decreases m - w,
        {
            match assign[w] {
                Some(t) => {
                    let ghost ta = self.tasks@;
                    let ghost ra = self.resources@;
                    let ghost sb = started@;
                    self.resources[w].queue_task(t);
                    self.tasks[t].lock();
                    let st = self.resources[w].start_task(self.day);
                    self.tasks[t].start();
                    started.push((w, t));
                    proof {
                        assert forall|v: int|
                            0 <= v < w + 1 && (#[trigger] assign@[v]).is_some() implies self.resources@[v].working_on.is_some()
                            && self.tasks@[assign@[v].unwrap() as int].is_locked by {
                            if v < w {
                                assert(ra[v] == self.resources@[v]);
                                let x = assign@[v].unwrap() as int;
                                assert(ta[x].is_locked);
                                if x != t {
                                    assert(self.tasks@[x] == ta[x]);
                                }
                            }
                        }
                        assert(agree_except(ta, self.tasks@, -1, n as nat));
                        assert forall|x: usize| x < n implies #[trigger] pending_from(self.tasks@, x, n as nat)
                            == pending_from(ta, x, n as nat) by {
                            lemma_pending_change(ta, self.tasks@, x, -1, n as nat);
                        }
                        lemma_done_change(ta, self.tasks@, -1, n as nat);
                        assert forall|v: int|
                            0 <= v < m && v != w && (#[trigger] ra[v]).working_on.is_some() implies ra[v].working_on.unwrap().0 != t by {
                            assert(ta[ra[v].working_on.unwrap().0 as int].is_locked);
                        }
                        assert forall|x: int|
                            0 <= x < n && (#[trigger] self.tasks@[x]).is_locked implies exists|v: int|
                            0 <= v < m && works_on(#[trigger] self.resources@[v], x) by {
                            if x == t {
                                assert(works_on(self.resources@[w as int], x));
                            } else {
                                let v = choose|v: int| 0 <= v < m && works_on(#[trigger] ra[v], x);
                                assert(works_on(self.resources@[v], x));
                            }
                        }
                        assert forall|i: int, j: int|
                            0 <= i < j < started@.len() implies (#[trigger] started@[i]).0 < (#[trigger] started@[j]).0 by {
                            assert(started@[i] == sb[i]);
                            if j < sb.len() {
                                assert(started@[j] == sb[j]);
                            }
                        }
                    }
                },
                None => {},
            }
            w = w + 1;
        }
        started
    }

    /// The ids of the available tasks, in increasing order.
    fn available_tasks(&self) -> (tis: Vec<usize>)
        ensures
            forall|a: int, b: int| 0 <= a < b < tis@.len() ==> tis@[a] < tis@[b],
            forall|j: int|
                0 <= j < tis@.len() ==> #[trigger] tis@[j] < self.tasks@.len()
                    && self.tasks@[tis@[j] as int].available(),
            forall|x: int|
                0 <= x < self.tasks@.len() && (#[trigger] self.tasks@[x]).available()
                    ==> tis@.contains(x as usize),
            tis@.len() == available_count(self.tasks@, self.tasks@.len()),
    {
        let mut tis: Vec<usize> = Vec::new();
        let mut t: usize = 0;
        while t < self.tasks.len()
            invariant
                t <= self.tasks@.len(),
                forall|a: int, b: int| 0 <= a < b < tis@.len() ==> tis@[a] < tis@[b],
                forall|j: int|
                    0 <= j < tis@.len() ==> #[trigger] tis@[j] < t && self.tasks@[tis@[j] as int].available(),
                forall|x: int|
                    0 <= x < t && (#[trigger] self.tasks@[x]).available() ==> tis@.contains(x as usize),
                tis@.len() == available_count(self.tasks@, t as nat),
            decreases self.tasks@.len() - t,
        {
            if self.tasks[t].is_available() {
                let ghost before = tis@;
                tis.push(t);
                assert forall|x: int|
                    0 <= x < t + 1 && (#[trigger] self.tasks@[x]).available() implies tis@.contains(x as usize) by {
                    if x < t {
                        let j = choose|j: int| 0 <= j < before.len() && before[j] == x as usize;
                        assert(tis@[j] == x as usize);
                    } else {
                        assert(tis@[before.len() as int] == x as usize);
                    }
                }
            }
            t = t + 1;
        }
        tis
    }

    /// The ids of the free workers, in increasing order.
    fn free_workers(&self) -> (ws: Vec<usize>)
        ensures
            forall|a: int, b: int| 0 <= a < b < ws@.len() ==> ws@[a] < ws@[b],
            forall|j: int|
                0 <= j < ws@.len() ==> #[trigger] ws@[j] < self.resources@.len()
                    && self.resources@[ws@[j] as int].working_on.is_none()
                    && self.resources@[ws@[j] as int].queue@.len() == 0,
            forall|x: int|
                0 <= x < self.resources@.len() && (#[trigger] self.resources@[x]).working_on.is_none()
                    && self.resources@[x].queue@.len() == 0 ==> ws@.contains(x as usize),
            ws@.len() == free_count(self.resources@, self.resources@.len()),
    {
        let mut ws: Vec<usize> = Vec::new();
        let mut w: usize = 0;
        while w < self.resources.len()
            invariant
                w <= self.resources@.len(),
                forall|a: int, b: int| 0 <= a < b < ws@.len() ==> ws@[a] < ws@[b],
                forall|j: int|
                    0 <= j < ws@.len() ==> #[trigger] ws@[j] < w
                        && self.resources@[ws@[j] as int].working_on.is_none()
                        && self.resources@[ws@[j] as int].queue@.len() == 0,
                forall|x: int|
                    0 <= x < w && (#[trigger] self.resources@[x]).working_on.is_none()
                        && self.resources@[x].queue@.len() == 0 ==> ws@.contains(x as usize),
                ws@.len() == free_count(self.resources@, w as nat),
            decreases self.resources@.len() - w,
        {
            if self.resources[w].is_free() {
                let ghost before = ws@;
                ws.push(w);
                assert forall|x: int|
                    0 <= x < w + 1 && (#[trigger] self.resources@[x]).working_on.is_none()
                        && self.resources@[x].queue@.len() == 0 implies ws@.contains(x as usize) by {
                    if x < w {
                        let j = choose|j: int| 0 <= j < before.len() && before[j] == x as usize;
                        assert(ws@[j] == x as usize);
                    } else {
                        assert(ws@[before.len() as int] == x as usize);
                    }
                }
            }
            w = w + 1;
        }
        ws
    }
}

/// A strictly increasing sequence of values below `n` has at most `n` entries.
proof fn lemma_increasing_len(s: Seq<usize>, n: nat)
    requires
        forall|a: int, b: int| 0 <= a < b < s.len() ==> s[a] < s[b],
        forall|j: int| 0 <= j < s.len() ==> #[trigger] s[j] < n,
    ensures
        s.len() <= n,
{
    assert forall|j: int| 0 <= j < s.len() implies #[trigger] s[j] >= j by {
        lemma_increasing_from(s, j);
    }
    if s.len() > 0 {
        assert(s[s.len() - 1] >= s.len() - 1);
    }
}

proof fn lemma_increasing_from(s: Seq<usize>, j: int)
    requires
        forall|a: int, b: int| 0 <= a < b < s.len() ==> s[a] < s[b],
        0 <= j < s.len(),
    ensures
        s[j] >= j,
    decreases j,
{
    if j > 0 {
        lemma_increasing_from(s, j - 1);
    }
}

/// The matched pairs of two columns, by worker: `r[w] == Some(t)` when some
/// position pairs task `t` with worker `w`.
fn pairs_by_worker(tcol: &Vec<Option<usize>>, best: &Vec<Option<usize>>, m: usize) -> (r: Vec<Option<usize>>)
    requires
        tcol@.len() == best@.len(),
        forall|p: int| 0 <= p < best@.len() && (#[trigger] best@[p]).is_some() ==> best@[p].unwrap() < m,
        distinct_workers(best@),
        distinct_workers(tcol@),
    ensures
        r@.len() == m,
        forall|w: int|
            0 <= w < m && (#[trigger] r@[w]).is_some() ==> exists|p: int|
                0 <= p < tcol@.len() && tcol@[p] == r@[w] && #[trigger] best@[p] == Some(w as usize),
        forall|p: int|
            0 <= p < tcol@.len() && (#[trigger] tcol@[p]).is_some() && best@[p].is_some() ==> r@[best@[p].unwrap() as int]
                == tcol@[p],
        forall|w1: int, w2: int|
            0 <= w1 < m && 0 <= w2 < m && w1 != w2 && (#[trigger] r@[w1]).is_some() ==> r@[w1]
                != #[trigger] r@[w2],
{
    let mut r: Vec<Option<usize>> = Vec::new();
    let mut w: usize = 0;
    while w < m
        invariant
            w <= m,
            r@.len() == w,
            forall|v: int| 0 <= v < w ==> (#[trigger] r@[v]).is_none(),
        decreases m - w,
    {
        r.push(None);
        w = w + 1;
    }
    let mut p: usize = 0;
    while p < tcol.len()
        invariant
            tcol@.len() == best@.len(),
            forall|q: int| 0 <= q < best@.len() && (#[trigger] best@[q]).is_some() ==> best@[q].unwrap() < m,
            distinct_workers(best@),
            distinct_workers(tcol@),
            p <= tcol@.len(),
            r@.len() == m,
            forall|w: int|
                0 <= w < m && (#[trigger] r@[w]).is_some() ==> exists|q: int|
                    0 <= q < p && tcol@[q] == r@[w] && #[trigger] best@[q] == Some(w as usize),
            forall|q: int|
                0 <= q < p && (#[trigger] tcol@[q]).is_some() && best@[q].is_some() ==> r@[best@[q].unwrap() as int]
                    == tcol@[q],
        decreases tcol@.len() - p,
    {
        match (tcol[p], best[p]) {
            (Some(t), Some(w)) => {
                let ghost before = r@;
                r.set(w, Some(t));
                assert forall|v: int|
                    0 <= v < m && (#[trigger] r@[v]).is_some() implies exists|q: int|
                    0 <= q < p + 1 && tcol@[q] == r@[v] && #[trigger] best@[q] == Some(v as usize) by {
                    if v == w {
                        assert(best@[p as int] == Some(v as usize));
                    } else {
                        assert(before[v].is_some());
                    }
                }
                assert forall|q: int|
                    0 <= q < p + 1 && (#[trigger] tcol@[q]).is_some() && best@[q].is_some() implies r@[best@[q].unwrap() as int]
                    == tcol@[q] by {
                    if q < p {
                        assert(best@[q] != best@[p as int]);
                    }
                }
            },
            _ => {},
        }
        p = p + 1;
    }
    assert forall|w1: int, w2: int|
        0 <= w1 < m && 0 <= w2 < m && w1 != w2 && (#[trigger] r@[w1]).is_some() implies r@[w1]
        != #[trigger] r@[w2] by {
        if r@[w1] == r@[w2] {
            let q1 = choose|q: int| 0 <= q < p && tcol@[q] == r@[w1] && #[trigger] best@[q] == Some(w1 as usize);
            let q2 = choose|q: int| 0 <= q < p && tcol@[q] == r@[w2] && #[trigger] best@[q] == Some(w2 as usize);
            assert(tcol@[q1] == tcol@[q2]);
            assert(q1 == q2);
        }
    }
    r
}

/// The targets of the edges among the first `j` that leave `u`, in order.
pub open spec fn successors(edges: Seq<(usize, usize)>, u: usize, j: nat) -> Seq<usize>
    decreases j,
{
    if j == 0 {
        Seq::empty()
    } else if edges[j - 1].0 == u {
        successors(edges, u, (j - 1) as nat).push(edges[j - 1].1)
    } else {
        successors(edges, u, (j - 1) as nat)
    }
}

/// The number of edges among the first `j` that enter `v`.
pub open spec fn incoming(edges: Seq<(usize, usize)>, v: usize, j: nat) -> nat
    decreases j,
{
    if j == 0 {
        0
    } else if edges[j - 1].1 == v {
        incoming(edges, v, (j - 1) as nat) + 1
    } else {
        incoming(edges, v, (j - 1) as nat)
    }
}

/// In every reachable state, a task is locked and not done exactly when one
/// worker, and only one, works on it.
pub proof fn lemma_one_worker_per_running_task(s: Scheduler, t: int)
    requires
        s.inv(),
        0 <= t < s.tasks@.len(),
    ensures
        (s.tasks@[t].is_locked && !s.tasks@[t].is_done) <==> exists|w: int|
            0 <= w < s.resources@.len() && works_on(#[trigger] s.resources@[w], t),
        forall|w1: int, w2: int|
            0 <= w1 < s.resources@.len() && 0 <= w2 < s.resources@.len() && works_on(
                #[trigger] s.resources@[w1],
                t,
            ) && works_on(#[trigger] s.resources@[w2], t) ==> w1 == w2,
{
    if exists|w: int| 0 <= w < s.resources@.len() && works_on(#[trigger] s.resources@[w], t) {
        let w = choose|w: int| 0 <= w < s.resources@.len() && works_on(#[trigger] s.resources@[w], t);
        assert(s.tasks@[s.resources@[w].working_on.unwrap().0 as int].is_locked);
    }
}

/// In every reachable state, the pending count of each task is the number of
/// edges into it from tasks that are not done.
pub proof fn lemma_pending_counts(s: Scheduler, x: int)
    requires
        s.inv(),
        0 <= x < s.tasks@.len(),
    ensures
        s.tasks@[x].pre_task_cnt == pending_from(s.tasks@, x as usize, s.tasks@.len()),
{
}

/// In every reachable state, the estimate table holds
/// `max(1, Σ_k max(0, diff[t][k] − skill[w][k]))` for every task and worker.
pub proof fn lemma_estimates_current(s: Scheduler, t: int, w: int)
    requires
        s.inv(),
        0 <= t < s.tasks@.len(),
        0 <= w < s.resources@.len(),
    ensures
        s.ests@[t]@[w] == est(s.diffs@[t]@, s.resources@[w].skills@),
        s.ests@[t]@[w] >= 1,
{
    assert(s.ests@[t]@[w] == est(s.diffs@[t]@, s.resources@[w].skills@));
}

} // verus!
