//! A worker: its estimated skill vector, its current assignment, its
//! completion history, and the annealed re-fit of its skills.
use crate::anneal::{accept, Acceptor};
use crate::estimate::{
    est, est_elapsed_days, estimable, lemma_difficulty_estimable, lemma_est_fits, valid_difficulty,
    valid_levels,
};
use crate::rng::{index_below, level_below};
use rand_pcg::Mcg128Xsl64;
use std::collections::VecDeque;
use vstd::prelude::*;

verus! {

/// The most completions one worker's history holds, and so the most tasks a
/// session holds: it keeps a loss sum within `i64`.
pub const MAX_HISTORY: usize = 0xffff_ffff;

/// Proposed skill levels are drawn from `[0, SKILL_PROPOSAL_BOUND)`. A wider
/// window explores more at the cost of slower convergence.
pub const SKILL_PROPOSAL_BOUND: i32 = 20;

/// Iterations of one skill re-fit.
pub const SKILL_FIT_ITERATIONS: u32 = 1000;

/// Every task has `k` valid difficulty levels.
pub open spec fn valid_diffs(diffs: Seq<Vec<i32>>, k: nat) -> bool {
    forall|t: int|
        0 <= t < diffs.len() ==> (#[trigger] diffs[t])@.len() == k && valid_difficulty(
            diffs[t]@,
        )
}

/// Every history entry names a task and a duration of at least one day.
pub open spec fn valid_history(history: Seq<(usize, i32)>, n_tasks: nat) -> bool {
    &&& history.len() <= MAX_HISTORY
    &&& forall|i: int|
        0 <= i < history.len() ==> (#[trigger] history[i]).0 < n_tasks && 1 <= history[i].1
}

/// `|d − e|`.
pub open spec fn gap(d: int, e: int) -> int {
    if d >= e {
        d - e
    } else {
        e - d
    }
}

/// Sum over the first `n` history entries of `|duration − est|`.
pub open spec fn loss_prefix(
    history: Seq<(usize, i32)>,
    diffs: Seq<Vec<i32>>,
    skills: Seq<i32>,
    n: nat,
) -> int
    decreases n,
{
    if n == 0 {
        0
    } else {
        loss_prefix(history, diffs, skills, (n - 1) as nat) + gap(
            history[n - 1].1 as int,
            est(diffs[history[n - 1].0 as int]@, skills),
        )
    }
}

/// `L(skills) = Σ_{(t,d) ∈ history} |d − est(t | skills)|`.
pub open spec fn history_loss(
    history: Seq<(usize, i32)>,
    diffs: Seq<Vec<i32>>,
    skills: Seq<i32>,
) -> int {
    loss_prefix(history, diffs, skills, history.len())
}

proof fn lemma_loss_bounds(
    history: Seq<(usize, i32)>,
    diffs: Seq<Vec<i32>>,
    skills: Seq<i32>,
    n: nat,
)
    requires
        valid_diffs(diffs, skills.len()),
        valid_levels(skills),
        valid_history(history, diffs.len()),
        n <= history.len(),
    ensures
        0 <= loss_prefix(history, diffs, skills, n) <= n * 0x7fff_ffff,
    decreases n,
{
    if n > 0 {
        lemma_loss_bounds(history, diffs, skills, (n - 1) as nat);
        let t = history[n - 1].0 as int;
        assert(valid_difficulty(diffs[t]@));
        lemma_est_fits(diffs[t]@, skills);
    }
}

/// A worker and what the scheduler knows of it.
pub struct Resource {
    pub rng: Mcg128Xsl64,
    pub id: usize,
    pub skills: Vec<i32>,
    /// Tasks queued for this worker, not yet started.
    pub queue: VecDeque<usize>,
    /// The task being worked on, with its start day.
    pub working_on: Option<(usize, i32)>,
    /// Completed tasks, with the days each took.
    pub history: Vec<(usize, i32)>,
}

/// A copy of a level vector.
pub fn copy_levels(v: &Vec<i32>) -> (r: Vec<i32>)
    ensures
        r@ == v@,
{
    let mut r: Vec<i32> = Vec::new();
    let mut i: usize = 0;
    while i < v.len()
        invariant
            i <= v@.len(),
            r@ == v@.subrange(0, i as int),
        decreases v@.len() - i,
    {
        r.push(v[i]);
        i = i + 1;
        assert(r@ =~= v@.subrange(0, i as int));
    }
    assert(r@ =~= v@);
    r
}

impl Resource {
    /// The worker is well formed against the task difficulties `diffs`.
    pub open spec fn wf(&self, diffs: Seq<Vec<i32>>) -> bool {
        &&& valid_diffs(diffs, self.skills@.len())
        &&& valid_levels(self.skills@)
        &&& valid_history(self.history@, diffs.len())
    }

    /// A worker with initial skill estimates and its own generator.
    pub fn new(id: usize, skills: Vec<i32>, rng: Mcg128Xsl64) -> (r: Resource)
        ensures
            r.id == id,
            r.skills@ == skills@,
            r.queue@ == Seq::<usize>::empty(),
            r.working_on.is_none(),
            r.history@ == Seq::<(usize, i32)>::empty(),
    {
        Resource { rng, id, skills, queue: VecDeque::new(), working_on: None, history: Vec::new() }
    }

    pub fn is_busy(&self) -> (r: bool)
        ensures
            r == self.working_on.is_some(),
    {
        self.working_on.is_some()
    }

    pub fn is_free(&self) -> (r: bool)
        ensures
            r == (self.working_on.is_none() && self.queue@.len() == 0),
    {
        self.working_on.is_none() && self.queue.len() == 0
    }

    /// Queues a task for the next start.
    pub fn queue_task(&mut self, ti: usize)
        ensures
            final(self).queue@ == old(self).queue@.push(ti),
            final(self).rng == old(self).rng,
            final(self).id == old(self).id,
            final(self).skills == old(self).skills,
            final(self).working_on == old(self).working_on,
            final(self).history == old(self).history,
    {
        self.queue.push_back(ti);
    }

    /// Starts the first queued task on `start_day` unless the worker is busy
    /// or nothing is queued.
    pub fn start_task(&mut self, start_day: i32) -> (r: Option<usize>)
        ensures
            old(self).working_on.is_none() && old(self).queue@.len() > 0 ==> {
                &&& r == Some(old(self).queue@[0])
                &&& final(self).working_on == Some((old(self).queue@[0], start_day))
                &&& final(self).queue@ == old(self).queue@.drop_first()
            },
            !(old(self).working_on.is_none() && old(self).queue@.len() > 0) ==> {
                &&& r.is_none()
                &&& *final(self) == *old(self)
            },
            final(self).rng == old(self).rng,
            final(self).id == old(self).id,
            final(self).skills == old(self).skills,
            final(self).history == old(self).history,
    {
        if self.is_busy() || self.queue.len() == 0 {
            return None;
        }
        match self.queue.pop_front() {
            Some(ti) => {
                self.working_on = Some((ti, start_day));
                Some(ti)
            },
            None => None,
        }
    }

    /// Ends the current task on `end_day`, appending it to the history with
    /// its duration `end_day − start_day + 1`, and returns its id.
    pub fn complete_task(&mut self, end_day: i32) -> (r: usize)
        requires
            old(self).working_on.is_some(),
            0 <= old(self).working_on.unwrap().1 <= end_day < i32::MAX,
        ensures
            r == old(self).working_on.unwrap().0,
            final(self).history@ == old(self).history@.push(
                (r, (end_day - old(self).working_on.unwrap().1 + 1) as i32),
            ),
            final(self).working_on.is_none(),
            final(self).id == old(self).id,
            final(self).skills == old(self).skills,
            final(self).queue == old(self).queue,
            final(self).rng == old(self).rng,
    {
        let (ti, start_day) = self.working_on.unwrap();
        let elapsed_days = end_day - start_day + 1;
        self.history.push((ti, elapsed_days));
        self.working_on = None;
        ti
    }

    /// `est(diff, skills)` for this worker.
    pub fn get_est_elapsed_days(&self, diff: &Vec<i32>) -> (r: i32)
        requires
            estimable(diff@, self.skills@),
        ensures
            r == est(diff@, self.skills@),
            r >= 1,
    {
        est_elapsed_days(diff, &self.skills)
    }

    /// `L(skills)` over this worker's history.
    pub fn calc_skills_loss_by_history(&self, diffs: &Vec<Vec<i32>>) -> (r: i64)
        requires
            self.wf(diffs@),
        ensures
            r == history_loss(self.history@, diffs@, self.skills@),
            r >= 0,
    {
        let mut loss: i64 = 0;
        let mut i: usize = 0;
        while i < self.history.len()
            invariant
                self.wf(diffs@),
                i <= self.history@.len(),
                loss == loss_prefix(self.history@, diffs@, self.skills@, i as nat),
            decreases self.history@.len() - i,
        {
            proof {
                lemma_loss_bounds(self.history@, diffs@, self.skills@, (i + 1) as nat);
                assert((i + 1) * 0x7fff_ffff <= 0xffff_ffff * 0x7fff_ffff) by (nonlinear_arith)
                    requires
                        i + 1 <= 0xffff_ffff,
                ;
            }
            let (ti, elapsed_days) = self.history[i];
            assert(valid_difficulty(diffs@[ti as int]@));
            proof {
                lemma_difficulty_estimable(diffs@[ti as int]@, self.skills@);
            }
            let e = self.get_est_elapsed_days(&diffs[ti]);
            let g: i64 = if elapsed_days >= e {
                (elapsed_days - e) as i64
            } else {
                (e - elapsed_days) as i64
            };
            loss = loss + g;
            i = i + 1;
        }
        proof {
            lemma_loss_bounds(self.history@, diffs@, self.skills@, i as nat);
        }
        loss
    }

    /// One step of the skill re-fit, with the drawn dimension `k` and level
    /// `new_v`: level `k` is set to `new_v`; `fit` becomes that vector when
    /// its loss is below `best_loss`; the change is kept when its loss is no
    /// worse than `cur_loss`, otherwise as `annealer` decides, and level `k`
    /// is put back when it is not kept. Returns the new current and best
    /// losses.
    pub fn fit_step<A: Acceptor>(
        &mut self,
        diffs: &Vec<Vec<i32>>,
        k: usize,
        new_v: i32,
        cur_loss: i64,
        best_loss: i64,
        fit: &mut Vec<i32>,
        annealer: &mut A,
    ) -> (r: (i64, i64))
        requires
            old(self).wf(diffs@),
            k < old(self).skills@.len(),
            0 <= new_v < SKILL_PROPOSAL_BOUND,
            cur_loss == history_loss(old(self).history@, diffs@, old(self).skills@),
            best_loss == history_loss(old(self).history@, diffs@, old(fit)@),
            old(fit)@.len() == old(self).skills@.len(),
            valid_levels(old(fit)@),
        ensures
            final(self).wf(diffs@),
            final(self).skills@.len() == old(self).skills@.len(),
            final(self).id == old(self).id,
            final(self).queue == old(self).queue,
            final(self).working_on == old(self).working_on,
            final(self).history == old(self).history,
            final(fit)@.len() == old(fit)@.len(),
            valid_levels(final(fit)@),
            history_loss(old(self).history@, diffs@, old(self).skills@.update(k as int, new_v))
                < best_loss ==> final(fit)@ == old(self).skills@.update(k as int, new_v) && r.1
                == history_loss(old(self).history@, diffs@, old(self).skills@.update(k as int, new_v)),
            history_loss(old(self).history@, diffs@, old(self).skills@.update(k as int, new_v))
                >= best_loss ==> final(fit)@ == old(fit)@ && r.1 == best_loss,
            history_loss(old(self).history@, diffs@, old(self).skills@.update(k as int, new_v))
                <= cur_loss ==> final(self).skills@ == old(self).skills@.update(k as int, new_v) && r.0
                == history_loss(old(self).history@, diffs@, old(self).skills@.update(k as int, new_v))
                && *final(annealer) == *old(annealer),
            history_loss(old(self).history@, diffs@, old(self).skills@.update(k as int, new_v))
                > cur_loss ==> (final(self).skills@ == old(self).skills@.update(k as int, new_v) && r.0
                == history_loss(old(self).history@, diffs@, old(self).skills@.update(k as int, new_v)))
                || (final(self).skills@ == old(self).skills@ && r.0 == cur_loss),
    {
        let cur_v = self.skills[k];
        let ghost prev = self.skills@;
        self.skills.set(k, new_v);
        let new_loss = self.calc_skills_loss_by_history(diffs);
        let mut best = best_loss;
        if new_loss < best_loss {
            best = new_loss;
            *fit = copy_levels(&self.skills);
        }
        proof {
            lemma_loss_bounds(self.history@, diffs@, prev, self.history@.len());
        }
        if accept(annealer, cur_loss - new_loss) {
            (new_loss, best)
        } else {
            self.skills.set(k, cur_v);
            assert(self.skills@ =~= prev);
            (cur_loss, best)
        }
    }

    /// Re-fits the skill vector to the history by annealing: each step sets
    /// one level to a random value in `[0, SKILL_PROPOSAL_BOUND)` and keeps it
    /// if `annealer` accepts the change in loss. The best vector seen is kept,
    /// so the loss never rises, and the vector changes only on a strict
    /// improvement. Every level keeps its value or lies in
    /// `[0, SKILL_PROPOSAL_BOUND)`. When every one-level change lowers the
    /// loss, the loss falls, since the first proposal is one. An empty history
    /// leaves both the skills and `annealer` as they were.
    pub fn optimize_skills<A: Acceptor>(&mut self, diffs: &Vec<Vec<i32>>, annealer: &mut A)
        requires
            old(self).wf(diffs@),
        ensures
            final(self).wf(diffs@),
            final(self).skills@.len() == old(self).skills@.len(),
            within_proposals(final(self).skills@, old(self).skills@),
            history_loss(final(self).history@, diffs@, final(self).skills@) <= history_loss(
                old(self).history@,
                diffs@,
                old(self).skills@,
            ),
            final(self).skills@ == old(self).skills@ || history_loss(
                final(self).history@,
                diffs@,
                final(self).skills@,
            ) < history_loss(old(self).history@, diffs@, old(self).skills@),
            old(self).skills@.len() > 0 && every_change_improves(
                old(self).history@,
                diffs@,
                old(self).skills@,
            ) ==> history_loss(final(self).history@, diffs@, final(self).skills@) < history_loss(
                old(self).history@,
                diffs@,
                old(self).skills@,
            ),
            old(self).history@.len() == 0 ==> final(self).skills@ == old(self).skills@,
            old(self).history@.len() == 0 ==> *final(annealer) == *old(annealer),
            final(self).id == old(self).id,
            final(self).queue == old(self).queue,
            final(self).working_on == old(self).working_on,
            final(self).history == old(self).history,
    {
        let skills_cnt = self.skills.len();
        if skills_cnt == 0 {
            assert(self.skills@ =~= old(self).skills@);
            return;
        }
        let ghost orig = self.skills@;
        let ghost orig_loss = history_loss(self.history@, diffs@, orig);
        let mut cur_loss = self.calc_skills_loss_by_history(diffs);
        let mut best_loss = cur_loss;
        let mut fit_skills = copy_levels(&self.skills);
        let mut it: u32 = 0;
        while it < SKILL_FIT_ITERATIONS
            invariant
                self.wf(diffs@),
                self.skills@.len() == skills_cnt > 0,
                self.id == old(self).id,
                self.queue == old(self).queue,
                self.working_on == old(self).working_on,
                self.history == old(self).history,
                orig == old(self).skills@,
                orig_loss == history_loss(self.history@, diffs@, orig),
                cur_loss == history_loss(self.history@, diffs@, self.skills@),
                cur_loss >= 0,
                fit_skills@.len() == skills_cnt,
                valid_levels(fit_skills@),
                best_loss == history_loss(self.history@, diffs@, fit_skills@),
                best_loss <= orig_loss,
                fit_skills@ == orig || best_loss < orig_loss,
                within_proposals(self.skills@, orig),
                within_proposals(fit_skills@, orig),
                it == 0 ==> self.skills@ == orig && fit_skills@ == orig,
                it > 0 && every_change_improves(self.history@, diffs@, orig) ==> best_loss < orig_loss,
                self.history@.len() == 0 ==> *annealer == *old(annealer),
            decreases SKILL_FIT_ITERATIONS - it,
        {
            let k = index_below(&mut self.rng, skills_cnt);
            let new_v = level_below(&mut self.rng, SKILL_PROPOSAL_BOUND);
            let ghost before = self.skills@;
            let ghost hist = self.history@;
            let ghost fit_before = fit_skills@;
            proof {
                if hist.len() == 0 {
                    assert(history_loss(hist, diffs@, before.update(k as int, new_v)) == 0);
                }
            }
            let r = self.fit_step(diffs, k, new_v, cur_loss, best_loss, &mut fit_skills, annealer);
            cur_loss = r.0;
            best_loss = r.1;
            proof {
                let proposed = before.update(k as int, new_v);
                assert(within_proposals(proposed, orig));
                lemma_loss_bounds(hist, diffs@, self.skills@, hist.len());
            }
            it = it + 1;
        }
        self.skills = fit_skills;
    }
}

/// Every level keeps its value in `orig` or lies in `[0, SKILL_PROPOSAL_BOUND)`.
pub open spec fn within_proposals(s: Seq<i32>, orig: Seq<i32>) -> bool {
    &&& s.len() == orig.len()
    &&& forall|k: int|
        0 <= k < s.len() ==> #[trigger] s[k] == orig[k] || (0 <= s[k] < SKILL_PROPOSAL_BOUND)
}

/// Setting any one level to any proposal value strictly lowers the loss.
pub open spec fn every_change_improves(
    history: Seq<(usize, i32)>,
    diffs: Seq<Vec<i32>>,
    skills: Seq<i32>,
) -> bool {
    forall|k: int, v: i32|
        0 <= k < skills.len() && 0 <= v < SKILL_PROPOSAL_BOUND ==> #[trigger] history_loss(
            history,
            diffs,
            skills.update(k, v),
        ) < history_loss(history, diffs, skills)
}

} // verus!
