use project_scheduler::anneal::{accept, Descent};
use project_scheduler::estimate::{est_elapsed_days, squared_norm};
use project_scheduler::optimizer::{optimize_assignment, swap_delta, SwapSearch};
use project_scheduler::priority::{pad_columns, seed_workers, sort_by_priority};
use project_scheduler::resource::Resource;
use project_scheduler::rng::{index_below, level_below, seeded_rng};
use project_scheduler::task::Task;

fn objective(ests: &Vec<Vec<i32>>, tis: &Vec<Option<usize>>, ris: &Vec<Option<usize>>) -> i64 {
    let mut s = 0i64;
    for p in 0..tis.len() {
        if let (Some(t), Some(w)) = (tis[p], ris[p]) {
            s += ests[t][w] as i64;
        }
    }
    s
}

#[test]
fn est_sums_shortfalls() {
    assert_eq!(est_elapsed_days(&vec![3, 4, 2], &vec![1, 5, 0]), 4);
    assert_eq!(est_elapsed_days(&vec![10], &vec![3]), 7);
}

#[test]
fn est_is_at_least_one() {
    assert_eq!(est_elapsed_days(&vec![0, 0], &vec![5, 5]), 1);
    assert_eq!(est_elapsed_days(&vec![2, 1], &vec![9, 9]), 1);
    assert_eq!(est_elapsed_days(&vec![], &vec![]), 1);
}

#[test]
fn squared_norm_of_levels() {
    assert_eq!(squared_norm(&vec![3, 4]), 25);
    assert_eq!(squared_norm(&vec![]), 0);
}

#[test]
fn accept_takes_improvements_and_ties() {
    let mut d = Descent;
    assert!(accept(&mut d, 5));
    assert!(accept(&mut d, 0));
    assert!(!accept(&mut d, -1));
}

#[test]
fn task_lifecycle() {
    let mut t = Task::new(0, &vec![3, 4]);
    assert_eq!(t.diff_norm, 25);
    assert!(t.is_available());
    t.nxt_tis.push(2);
    t.nxt_tis.push(5);
    t.lock();
    assert!(t.is_ready());
    assert!(!t.is_available());
    t.start();
    let succ = t.complete();
    assert_eq!(succ, vec![2, 5]);
    assert!(t.is_done);
    assert!(!t.is_locked);
    assert!(!t.is_available());
}

#[test]
fn task_unlock_releases_lock() {
    let mut t = Task::new(1, &vec![1]);
    t.lock();
    t.unlock();
    assert!(t.is_available());
}

#[test]
fn resource_runs_queued_task() {
    let mut r = Resource::new(0, vec![1, 2], seeded_rng(0));
    assert!(r.is_free());
    assert_eq!(r.start_task(0), None);
    r.queue_task(4);
    assert!(!r.is_free());
    assert_eq!(r.start_task(3), Some(4));
    assert!(r.is_busy());
    r.queue_task(6);
    assert_eq!(r.start_task(4), None);
    assert_eq!(r.complete_task(5), 4);
    assert_eq!(r.history, vec![(4, 3)]);
    assert!(!r.is_busy());
}

#[test]
fn resource_estimate_and_loss() {
    let diffs = vec![vec![5, 0], vec![0, 4]];
    let mut r = Resource::new(0, vec![2, 1], seeded_rng(0));
    assert_eq!(r.get_est_elapsed_days(&diffs[0]), 3);
    assert_eq!(r.get_est_elapsed_days(&diffs[1]), 3);
    r.history.push((0, 5));
    r.history.push((1, 1));
    assert_eq!(r.calc_skills_loss_by_history(&diffs), 2 + 2);
}

#[test]
fn skill_fit_with_empty_history_keeps_skills() {
    let diffs = vec![vec![5, 3]];
    let mut r = Resource::new(2, vec![7, 11], seeded_rng(2));
    let mut d = Descent;
    r.optimize_skills(&diffs, &mut d);
    assert_eq!(r.skills, vec![7, 11]);
}

#[test]
fn skill_fit_never_raises_loss() {
    let diffs = vec![vec![10, 10], vec![3, 8]];
    let mut r = Resource::new(0, vec![0, 0], seeded_rng(5));
    r.history.push((0, 3));
    r.history.push((1, 2));
    let before = r.calc_skills_loss_by_history(&diffs);
    let mut d = Descent;
    r.optimize_skills(&diffs, &mut d);
    let after = r.calc_skills_loss_by_history(&diffs);
    assert!(after <= before);
    assert!(after < before);
    assert_eq!(r.history, vec![(0, 3), (1, 2)]);
}

#[test]
fn swap_delta_is_exact() {
    let ests = vec![vec![1, 5], vec![4, 2]];
    let tis = vec![Some(0), Some(1)];
    let ris = vec![Some(1), Some(0)];
    let d = swap_delta(&ests, &tis, &ris, 0, 1);
    assert_eq!(d, (1 + 2) - (5 + 4));
    let padded_t = vec![Some(0), None];
    let padded_r = vec![Some(1), Some(0)];
    assert_eq!(swap_delta(&ests, &padded_t, &padded_r, 0, 1), 1 - 5);
}

#[test]
fn swap_twice_restores_and_cancels() {
    let ests = vec![vec![3, 9, 1], vec![7, 2, 6], vec![5, 5, 4]];
    let tis = vec![Some(0), Some(1), Some(2)];
    let mut ris = vec![Some(2), Some(0), Some(1)];
    let orig = ris.clone();
    let d1 = swap_delta(&ests, &tis, &ris, 0, 2);
    ris.swap(0, 2);
    let d2 = swap_delta(&ests, &tis, &ris, 0, 2);
    ris.swap(0, 2);
    assert_eq!(ris, orig);
    assert_eq!(d1 + d2, 0);
}

#[test]
fn swap_step_best_never_rises() {
    let ests = vec![vec![9, 1], vec![1, 9]];
    let tis = vec![Some(0), Some(1)];
    let mut s = SwapSearch::new(&ests, &tis, vec![Some(0), Some(1)]);
    let mut d = Descent;
    s.step(&ests, &tis, 0, 1, &mut d);
    assert_eq!(s.best, -16);
    assert_eq!(s.best_ris, vec![Some(1), Some(0)]);
    assert_eq!(s.ris, vec![Some(1), Some(0)]);
    s.step(&ests, &tis, 0, 1, &mut d);
    assert_eq!(s.best, -16);
    assert_eq!(s.ris, vec![Some(1), Some(0)]);
    assert_eq!(s.cur, -16);
}

#[test]
fn optimizer_finds_no_worse_matching() {
    let ests = vec![vec![9, 1, 4], vec![1, 9, 4], vec![5, 5, 1]];
    let tis = vec![Some(0), Some(1), Some(2)];
    let ris = vec![Some(0), Some(1), Some(2)];
    let mut rng = seeded_rng(37);
    let mut d = Descent;
    let best = optimize_assignment(&ests, &tis, ris.clone(), &mut rng, &mut d);
    assert!(objective(&ests, &tis, &best) <= objective(&ests, &tis, &ris));
    assert_eq!(objective(&ests, &tis, &best), 3);
    let mut ws: Vec<usize> = best.iter().map(|w| w.unwrap()).collect();
    ws.sort();
    assert_eq!(ws, vec![0, 1, 2]);
}

#[test]
fn priority_order() {
    let mut tasks = vec![
        Task::new(0, &vec![1, 1]),
        Task::new(1, &vec![3, 0]),
        Task::new(2, &vec![0, 3]),
        Task::new(3, &vec![0, 0]),
    ];
    tasks[3].nxt_tis.push(0);
    let sorted = sort_by_priority(&tasks, vec![0, 1, 2, 3]);
    assert_eq!(sorted, vec![3, 1, 2, 0]);
}

#[test]
fn seeding_picks_fastest_then_stacks_rest() {
    let ests = vec![vec![5, 2, 2, 9], vec![1, 7, 7, 7]];
    let ris = seed_workers(&ests, &vec![0, 1], vec![0, 1, 2, 3]);
    assert_eq!(ris, vec![1, 0, 3, 2]);
    let fewer = seed_workers(&ests, &vec![0, 1], vec![3]);
    assert_eq!(fewer, vec![3]);
}

#[test]
fn padding_evens_columns() {
    let (a, b) = pad_columns(&vec![4, 5, 6], &vec![1]);
    assert_eq!(a, vec![Some(4), Some(5), Some(6)]);
    assert_eq!(b, vec![Some(1), None, None]);
    let (c, d) = pad_columns(&vec![2], &vec![0, 3]);
    assert_eq!(c, vec![Some(2), None]);
    assert_eq!(d, vec![Some(0), Some(3)]);
}

#[test]
fn draws_stay_in_range() {
    let mut rng = seeded_rng(11);
    let mut seen_nonzero = false;
    for _ in 0..200 {
        let i = index_below(&mut rng, 5);
        assert!(i < 5);
        let v = level_below(&mut rng, 20);
        assert!((0..20).contains(&v));
        if i != 0 || v != 0 {
            seen_nonzero = true;
        }
    }
    assert!(seen_nonzero);
}

#[test]
fn fit_step_keeps_an_improvement_and_records_it() {
    let diffs = vec![vec![30]];
    let mut r = Resource::new(0, vec![0], seeded_rng(0));
    r.history.push((0, 20));
    let mut fit = vec![0];
    let mut d = Descent;
    let (cur, best) = r.fit_step(&diffs, 0, 15, 10, 10, &mut fit, &mut d);
    assert_eq!((cur, best), (5, 5));
    assert_eq!(r.skills, vec![15]);
    assert_eq!(fit, vec![15]);
    let (cur2, best2) = r.fit_step(&diffs, 0, 1, cur, best, &mut fit, &mut d);
    assert_eq!((cur2, best2), (5, 5));
    assert_eq!(r.skills, vec![15]);
    assert_eq!(fit, vec![15]);
}

#[test]
fn skill_fit_lowers_loss_when_every_change_helps() {
    let diffs = vec![vec![30]];
    let mut r = Resource::new(0, vec![25], seeded_rng(3));
    r.history.push((0, 20));
    assert_eq!(r.calc_skills_loss_by_history(&diffs), 15);
    let mut d = Descent;
    r.optimize_skills(&diffs, &mut d);
    assert!(r.calc_skills_loss_by_history(&diffs) < 15);
    assert!((0..20).contains(&r.skills[0]));
}

#[test]
fn task_start_locks_an_available_task() {
    let mut t = Task::new(3, &vec![2]);
    t.start();
    assert!(t.is_locked);
    assert!(t.is_ready());
}

#[test]
fn start_without_queue_leaves_worker_alone() {
    let mut r = Resource::new(1, vec![4], seeded_rng(1));
    assert_eq!(r.start_task(2), None);
    assert!(r.queue.is_empty());
    assert_eq!(r.working_on, None);
}

#[test]
fn est_with_fewer_dimensions_than_skills() {
    assert_eq!(est_elapsed_days(&vec![50000], &vec![0, 7]), 50000);
}
