use project_scheduler::anneal::Descent;
use project_scheduler::protocol::{assignment_tokens, read_report, skill_tokens, ProtocolError, Report};
use project_scheduler::resource::Resource;
use project_scheduler::rng::seeded_rng;
use project_scheduler::scheduler::Scheduler;

fn session(diffs: Vec<Vec<i32>>, edges: Vec<(usize, usize)>, m: usize, k: usize) -> Scheduler {
    let resources: Vec<Resource> = (0..m)
        .map(|w| Resource::new(w, vec![1; k], seeded_rng(w as u64)))
        .collect();
    Scheduler::new(diffs, &edges, resources, k)
}

fn plan(s: &mut Scheduler) -> Vec<(usize, usize)> {
    let mut global = Descent;
    let mut fresh = Descent;
    s.plan_day(&mut global, &mut fresh)
}

fn finish(s: &mut Scheduler, w: usize) -> usize {
    let mut global = Descent;
    s.complete_worker(w, &mut global)
}

#[test]
fn single_task_single_worker() {
    let mut s = session(vec![vec![5]], vec![], 1, 1);
    let first = plan(&mut s);
    assert_eq!(first, vec![(0, 0)]);
    assert_eq!(assignment_tokens(&first), vec![1, 1, 1]);
    match read_report(&vec![1, 1], 1) {
        Ok(Report::Freed(ws)) => assert_eq!(ws, vec![0]),
        _ => panic!("expected a completion"),
    }
    assert_eq!(finish(&mut s, 0), 0);
    assert!(s.tasks[0].is_done);
    assert_eq!(s.resources[0].history, vec![(0, 1)]);
    s.advance_day();
    assert!(matches!(read_report(&vec![-1], 1), Ok(Report::End)));
}

#[test]
fn first_day_output_for_one_task() {
    let mut s = session(vec![vec![5]], vec![], 1, 1);
    let report = skill_tokens(&s.resources[0]);
    assert_eq!(report[0], 1);
    assert_eq!(report.len(), 2);
    let started = plan(&mut s);
    assert_eq!(assignment_tokens(&started), vec![1, 1, 1]);
}

#[test]
fn no_edges_and_as_many_workers_as_tasks_start_everything() {
    let mut s = session(vec![vec![1], vec![2], vec![3]], vec![], 3, 1);
    let started = plan(&mut s);
    assert_eq!(started.len(), 3);
    let mut tasks: Vec<usize> = started.iter().map(|p| p.1).collect();
    tasks.sort();
    assert_eq!(tasks, vec![0, 1, 2]);
}

#[test]
fn chain_runs_one_task_at_a_time() {
    let n = 4;
    let diffs: Vec<Vec<i32>> = (0..n).map(|i| vec![i as i32 + 1]).collect();
    let edges: Vec<(usize, usize)> = (0..n - 1).map(|i| (i, i + 1)).collect();
    let mut s = session(diffs, edges, 2, 1);
    let mut completions = 0;
    let mut order = vec![];
    for _day in 0..10 {
        let started = plan(&mut s);
        let running = s.resources.iter().filter(|r| r.is_busy()).count();
        assert!(running <= 1);
        for &(w, _) in &started {
            order.push(finish(&mut s, w));
            completions += 1;
        }
        s.advance_day();
    }
    assert_eq!(completions, n);
    assert_eq!(order, vec![0, 1, 2, 3]);
}

#[test]
fn nothing_to_assign_gives_empty_line() {
    let mut s = session(vec![vec![5], vec![6]], vec![], 1, 1);
    let first = plan(&mut s);
    assert_eq!(first.len(), 1);
    s.advance_day();
    let second = plan(&mut s);
    assert!(second.is_empty());
    assert_eq!(assignment_tokens(&second), vec![0]);
}

#[test]
fn no_ready_task_gives_empty_line() {
    let mut s = session(vec![vec![5], vec![6]], vec![(0, 1)], 2, 1);
    let first = plan(&mut s);
    assert_eq!(first.len(), 1);
    assert_eq!(first[0].1, 0);
    s.advance_day();
    let second = plan(&mut s);
    assert!(second.is_empty());
}

#[test]
fn successor_starts_after_predecessor_completes() {
    let mut s = session(vec![vec![3], vec![4]], vec![(0, 1)], 1, 1);
    let day0 = plan(&mut s);
    assert_eq!(assignment_tokens(&day0), vec![1, 1, 1]);
    assert_eq!(s.tasks[1].pre_task_cnt, 1);
    finish(&mut s, 0);
    assert_eq!(s.tasks[1].pre_task_cnt, 0);
    s.advance_day();
    let day1 = plan(&mut s);
    assert_eq!(assignment_tokens(&day1), vec![1, 1, 2]);
}

#[test]
fn two_workers_both_start() {
    let mut s = session(vec![vec![3], vec![3]], vec![], 2, 1);
    let day0 = plan(&mut s);
    let tokens = assignment_tokens(&day0);
    assert_eq!(tokens[0], 2);
    assert_eq!(tokens.len(), 5);
    match read_report(&vec![2, 1, 2], 2) {
        Ok(Report::Freed(ws)) => {
            for w in ws {
                finish(&mut s, w);
            }
        }
        _ => panic!("expected completions"),
    }
    assert!(s.tasks.iter().all(|t| t.is_done));
}

#[test]
fn dependent_task_waits_for_its_predecessor() {
    let diffs = vec![vec![2, 0], vec![0, 2], vec![2, 2]];
    let mut s = session(diffs, vec![(0, 2)], 2, 2);
    let day0 = plan(&mut s);
    let mut tasks: Vec<usize> = day0.iter().map(|p| p.1).collect();
    tasks.sort();
    assert_eq!(tasks, vec![0, 1]);
    let w1 = day0.iter().find(|p| p.1 == 1).unwrap().0;
    finish(&mut s, w1);
    s.advance_day();
    let day1 = plan(&mut s);
    assert!(day1.iter().all(|p| p.1 != 2));
    let w0 = s.resources.iter().position(|r| r.working_on.map(|x| x.0) == Some(0)).unwrap();
    finish(&mut s, w0);
    s.advance_day();
    let day2 = plan(&mut s);
    assert_eq!(day2.len(), 1);
    assert_eq!(day2[0].1, 2);
}

#[test]
fn completion_without_successors_keeps_counters() {
    let mut s = session(vec![vec![1], vec![2], vec![3]], vec![(1, 2)], 1, 1);
    let day0 = plan(&mut s);
    let t = day0[0].1;
    assert_ne!(t, 2);
    let before: Vec<usize> = s.tasks.iter().map(|x| x.pre_task_cnt).collect();
    if s.tasks[t].nxt_tis.is_empty() {
        finish(&mut s, 0);
        let after: Vec<usize> = s.tasks.iter().map(|x| x.pre_task_cnt).collect();
        assert_eq!(before, after);
    }
}

#[test]
fn estimate_column_follows_skill_change() {
    let mut s = session(vec![vec![9, 9], vec![4, 1]], vec![], 1, 2);
    plan(&mut s);
    s.advance_day();
    s.advance_day();
    finish(&mut s, 0);
    let skills = s.resources[0].skills.clone();
    for t in 0..2 {
        let d = &s.diffs[t];
        let sum: i32 = (0..2).map(|k| (d[k] - skills[k]).max(0)).sum();
        assert_eq!(s.ests[t][0], sum.max(1));
    }
}

#[test]
fn slow_completion_moves_skills_to_lower_loss() {
    let mut s = session(vec![vec![2, 2]], vec![], 1, 2);
    plan(&mut s);
    let before = s.resources[0].skills.clone();
    for _ in 0..5 {
        s.advance_day();
    }
    finish(&mut s, 0);
    let hist = s.resources[0].history.clone();
    assert_eq!(hist, vec![(0, 6)]);
    let loss = |sk: &Vec<i32>| -> i32 {
        let e: i32 = (0..2).map(|k| (2 - sk[k]).max(0)).sum::<i32>().max(1);
        (6 - e).abs()
    };
    assert!(loss(&s.resources[0].skills) <= loss(&before));
}

#[test]
fn end_of_contest_is_recognised() {
    assert!(matches!(read_report(&vec![-1], 3), Ok(Report::End)));
    assert!(matches!(read_report(&vec![-1, 4], 3), Ok(Report::End)));
}

#[test]
fn malformed_reports_are_rejected() {
    assert!(matches!(read_report(&vec![], 3), Err(ProtocolError::Empty)));
    assert!(matches!(read_report(&vec![2, 1], 3), Err(ProtocolError::BadCount)));
    assert!(matches!(read_report(&vec![-2], 3), Err(ProtocolError::BadCount)));
    assert!(matches!(read_report(&vec![1, 4], 3), Err(ProtocolError::UnknownWorker)));
    assert!(matches!(read_report(&vec![1, 0], 3), Err(ProtocolError::UnknownWorker)));
    match read_report(&vec![2, 3, 1], 3) {
        Ok(Report::Freed(ws)) => assert_eq!(ws, vec![2, 0]),
        _ => panic!("expected completions"),
    }
    assert!(matches!(read_report(&vec![0], 3), Ok(Report::Freed(ref v)) if v.is_empty()));
}

#[test]
fn skill_report_lists_levels() {
    let r = Resource::new(4, vec![3, 0, 7], seeded_rng(4));
    assert_eq!(skill_tokens(&r), vec![5, 3, 0, 7]);
}

struct Recorder {
    progress: Vec<(u64, u64)>,
    asked: usize,
}

impl project_scheduler::anneal::Acceptor for Recorder {
    fn set_progress(&mut self, step: u64, total: u64) {
        self.progress.push((step, total));
    }

    fn accept_worse(&mut self, _delta: i64) -> bool {
        self.asked += 1;
        false
    }
}

#[test]
fn day_sets_global_progress_and_runs_full_search() {
    let mut s = session(vec![vec![3], vec![5]], vec![], 2, 1);
    s.advance_day();
    s.advance_day();
    let mut global = Recorder { progress: vec![], asked: 0 };
    let mut fresh = Recorder { progress: vec![], asked: 0 };
    let started = s.plan_day(&mut global, &mut fresh);
    assert_eq!(started.len(), 2);
    assert_eq!(global.progress, vec![(2, 1999)]);
    assert_eq!(fresh.progress.len(), 10000);
    assert_eq!(fresh.progress[0], (0, 10000));
    assert_eq!(fresh.progress[9999], (9999, 10000));
}

#[test]
fn no_search_without_tasks_and_workers() {
    let mut s = session(vec![vec![3], vec![4]], vec![(0, 1)], 1, 1);
    assert_eq!(plan(&mut s).len(), 1);
    s.advance_day();
    let mut global = Recorder { progress: vec![], asked: 0 };
    let mut fresh = Recorder { progress: vec![], asked: 0 };
    let started = s.plan_day(&mut global, &mut fresh);
    assert!(started.is_empty());
    assert!(fresh.progress.is_empty());
    assert_eq!(fresh.asked, 0);
    assert_eq!(global.progress, vec![(1, 1999)]);
}
