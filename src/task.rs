//! A node of the task graph and its small state machine
//! (available → locked → done).
use crate::estimate::{norm_sum, squared_norm, valid_difficulty};
use vstd::prelude::*;

verus! {

/// A task: its difficulty vector, its successors, how many of its
/// predecessors are not done yet, and its state.
pub struct Task {
    pub id: usize,
    pub diff: Vec<i32>,
    pub diff_norm: i32,
    pub nxt_tis: Vec<usize>,
    pub pre_task_cnt: usize,
    pub is_locked: bool,
    pub is_done: bool,
}

impl Task {
    /// The task can be started: not locked, not done, no pending predecessor.
    pub open spec fn available(&self) -> bool {
        !self.is_locked && !self.is_done && self.pre_task_cnt == 0
    }

    /// The task has been locked for a start and is not done.
    pub open spec fn ready(&self) -> bool {
        self.is_locked && !self.is_done && self.pre_task_cnt == 0
    }

    /// A fresh task with no edges yet.
    pub fn new(id: usize, diff: &Vec<i32>) -> (r: Task)
        requires
            valid_difficulty(diff@),
        ensures
            r.id == id,
            r.diff@ == diff@,
            r.diff_norm == norm_sum(diff@, diff@.len()),
            r.nxt_tis@ == Seq::<usize>::empty(),
            r.pre_task_cnt == 0,
            !r.is_locked,
            !r.is_done,
    {
        let diff_norm = squared_norm(diff);
        let mut own: Vec<i32> = Vec::new();
        let mut k: usize = 0;
        while k < diff.len()
            invariant
                k <= diff@.len(),
                own@ == diff@.subrange(0, k as int),
            decreases diff@.len() - k,
        {
            own.push(diff[k]);
            k = k + 1;
            assert(own@ =~= diff@.subrange(0, k as int));
        }
        assert(own@ =~= diff@);
        Task {
            id,
            diff: own,
            diff_norm,
            nxt_tis: Vec::new(),
            pre_task_cnt: 0,
            is_locked: false,
            is_done: false,
        }
    }

    pub fn is_available(&self) -> (r: bool)
        ensures
            r == self.available(),
    {
        !self.is_locked && !self.is_done && self.pre_task_cnt == 0
    }

    pub fn is_ready(&self) -> (r: bool)
        ensures
            r == self.ready(),
    {
        self.is_locked && !self.is_done && self.pre_task_cnt == 0
    }

    /// Starts a task that is not done and has no pending predecessor; it is
    /// locked afterwards, whether it was locked for the start or not.
    pub fn start(&mut self)
        requires
            !old(self).is_done,
            old(self).pre_task_cnt == 0,
        ensures
            final(self).ready(),
            final(self).id == old(self).id,
            final(self).diff == old(self).diff,
            final(self).diff_norm == old(self).diff_norm,
            final(self).nxt_tis == old(self).nxt_tis,
            final(self).pre_task_cnt == old(self).pre_task_cnt,
            final(self).is_done == old(self).is_done,
            old(self).is_locked ==> *final(self) == *old(self),
    {
        self.is_locked = true;
    }

    /// Locks the task for a worker.
    pub fn lock(&mut self)
        requires
            !old(self).is_locked,
        ensures
            final(self).is_locked,
            final(self).id == old(self).id,
            final(self).diff == old(self).diff,
            final(self).diff_norm == old(self).diff_norm,
            final(self).nxt_tis == old(self).nxt_tis,
            final(self).pre_task_cnt == old(self).pre_task_cnt,
            final(self).is_done == old(self).is_done,
    {
        self.is_locked = true;
    }

    /// Releases a lock.
    pub fn unlock(&mut self)
        requires
            old(self).is_locked,
        ensures
            !final(self).is_locked,
            final(self).id == old(self).id,
            final(self).diff == old(self).diff,
            final(self).diff_norm == old(self).diff_norm,
            final(self).nxt_tis == old(self).nxt_tis,
            final(self).pre_task_cnt == old(self).pre_task_cnt,
            final(self).is_done == old(self).is_done,
    {
        self.is_locked = false;
    }

    /// Completes a locked task: it is no longer locked, it is done, and its
    /// successors are returned so that the caller can release them.
    pub fn complete(&mut self) -> (succ: Vec<usize>)
        requires
            old(self).is_locked,
            !old(self).is_done,
        ensures
            !final(self).is_locked,
            final(self).is_done,
            succ@ == old(self).nxt_tis@,
            final(self).id == old(self).id,
            final(self).diff == old(self).diff,
            final(self).diff_norm == old(self).diff_norm,
            final(self).nxt_tis == old(self).nxt_tis,
            final(self).pre_task_cnt == old(self).pre_task_cnt,
    {
        self.is_locked = false;
        self.is_done = true;
        let mut succ: Vec<usize> = Vec::new();
        let mut i: usize = 0;
        while i < self.nxt_tis.len()
            invariant
                i <= self.nxt_tis@.len(),
                succ@ == self.nxt_tis@.subrange(0, i as int),
            decreases self.nxt_tis@.len() - i,
        {
            succ.push(self.nxt_tis[i]);
            i = i + 1;
            assert(succ@ =~= self.nxt_tis@.subrange(0, i as int));
        }
        assert(succ@ =~= self.nxt_tis@);
        succ
    }
}

} // verus!
