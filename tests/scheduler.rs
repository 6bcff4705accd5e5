use job_scheduler::deps::{build_dependency_map, build_dependents_map};
use job_scheduler::dispatch::{dispatch_initial, is_job_eligible, on_job_finished, parents_done, start_run};
use job_scheduler::epoch::{Epoch, EpochState};
use job_scheduler::graph::{contains_id, topological_sort};
use job_scheduler::job::{CronJob, CronJobDependency};
use job_scheduler::listing::{build_jobs_map, find_name, names_for_ids};
use std::collections::HashMap;

const NOW: i64 = 1_700_000_000_000;
const HOUR: i64 = 3_600_000;

fn job(id: i32, timings: i64, children: Option<Vec<i32>>) -> CronJob {
    CronJob {
        cron_job_id: id,
        group_id: 7,
        cron_job_name: format!("job{}", id),
        timings,
        children,
        s3_link: None,
    }
}

fn jobs_map(jobs: &[CronJob]) -> HashMap<i32, CronJob> {
    jobs.iter().cloned().map(|j| (j.cron_job_id, j)).collect()
}

fn position(order: &[i32], id: i32) -> usize {
    order.iter().position(|x| *x == id).unwrap()
}

fn sorted(mut v: Vec<i32>) -> Vec<i32> {
    v.sort();
    v
}

#[test]
fn sort_lists_every_id_once() {
    let jobs = vec![
        job(1, NOW, Some(vec![2, 3, 3])),
        job(2, NOW, Some(vec![3])),
        job(3, NOW, None),
        job(4, NOW, Some(vec![9])),
    ];
    let order = topological_sort(&jobs);
    assert_eq!(sorted(order.clone()), vec![1, 2, 3, 4, 9]);
}

#[test]
fn sort_of_empty_group_is_empty() {
    assert!(topological_sort(&[]).is_empty());
}

#[test]
fn sort_places_parents_first() {
    let jobs = vec![
        job(4, NOW, None),
        job(3, NOW, Some(vec![4])),
        job(2, NOW, Some(vec![4])),
        job(1, NOW, Some(vec![2, 3])),
    ];
    let order = topological_sort(&jobs);
    assert_eq!(order.len(), 4);
    assert!(position(&order, 1) < position(&order, 2));
    assert!(position(&order, 1) < position(&order, 3));
    assert!(position(&order, 2) < position(&order, 4));
    assert!(position(&order, 3) < position(&order, 4));
}

#[test]
fn sort_appends_cycle_members_last() {
    let jobs = vec![
        job(1, NOW, Some(vec![2])),
        job(2, NOW, Some(vec![1, 3])),
        job(3, NOW, None),
        job(5, NOW, Some(vec![6])),
        job(6, NOW, None),
    ];
    let order = topological_sort(&jobs);
    assert_eq!(sorted(order.clone()), vec![1, 2, 3, 5, 6]);
    assert!(position(&order, 5) < position(&order, 6));
    for id in [1, 2, 3] {
        assert!(position(&order, id) >= 2);
    }
}

#[test]
fn contains_id_finds_members() {
    assert!(contains_id(&vec![4, 5], 5));
    assert!(!contains_id(&vec![4, 5], 6));
}

#[test]
fn dependency_map_groups_records() {
    let deps = vec![
        CronJobDependency { cron_job_id: 2, parent_id: 1, epoch: 0 },
        CronJobDependency { cron_job_id: 3, parent_id: 1, epoch: 1 },
        CronJobDependency { cron_job_id: 3, parent_id: 2, epoch: 0 },
    ];
    let m = build_dependency_map(&deps);
    assert_eq!(m.len(), 2);
    assert_eq!(m[&2], vec![1]);
    assert_eq!(m[&3], vec![1, 2]);
}

#[test]
fn dependents_map_reverses_edges() {
    let mut deps: HashMap<i32, Vec<i32>> = HashMap::new();
    deps.insert(2, vec![1]);
    deps.insert(3, vec![1, 2]);
    deps.insert(4, vec![]);
    let m = build_dependents_map(&deps);
    assert_eq!(m.len(), 2);
    assert_eq!(sorted(m[&1].clone()), vec![2, 3]);
    assert_eq!(m[&2], vec![3]);
}

#[test]
fn dependents_map_keeps_repeated_edges() {
    let mut deps: HashMap<i32, Vec<i32>> = HashMap::new();
    deps.insert(2, vec![1, 1]);
    deps.insert(3, vec![1]);
    let m = build_dependents_map(&deps);
    assert_eq!(sorted(m[&1].clone()), vec![2, 2, 3]);
}

#[test]
fn dependents_map_reversed_twice_gives_edges_back() {
    let mut deps: HashMap<i32, Vec<i32>> = HashMap::new();
    deps.insert(2, vec![1]);
    deps.insert(3, vec![1, 2, 2]);
    deps.insert(4, vec![]);
    let back = build_dependents_map(&build_dependents_map(&deps));
    assert_eq!(back.len(), 2);
    assert_eq!(sorted(back[&2].clone()), vec![1]);
    assert_eq!(sorted(back[&3].clone()), vec![1, 2, 2]);
}

#[test]
fn epoch_labels() {
    assert_eq!(Epoch::Pending.label(), "pending");
    assert_eq!(Epoch::Running.label(), "running");
    assert_eq!(Epoch::Completed.label(), "completed");
    assert_eq!(Epoch::Failed.label(), "failed");
}

#[test]
fn initialize_resets_listed_ids_only() {
    let mut s = EpochState::new();
    s.set(1, Epoch::Completed);
    s.set(9, Epoch::Failed);
    s.initialize(&vec![1, 2]);
    assert_eq!(s.get(1), Some(Epoch::Pending));
    assert_eq!(s.get(2), Some(Epoch::Pending));
    assert_eq!(s.get(9), Some(Epoch::Failed));
    assert_eq!(s.get(3), None);
    assert!(!s.is_completed(1));
}

#[test]
fn missing_parent_state_blocks() {
    let mut deps: HashMap<i32, Vec<i32>> = HashMap::new();
    deps.insert(2, vec![1]);
    let s = EpochState::new();
    assert!(!parents_done(&deps, &s, 2));
    assert!(parents_done(&deps, &s, 5));
    let jobs = jobs_map(&[job(2, NOW - HOUR, None), job(5, NOW - HOUR, None)]);
    assert!(!is_job_eligible(&jobs, &deps, &s, NOW, 2));
    assert!(is_job_eligible(&jobs, &deps, &s, NOW, 5));
    assert!(!is_job_eligible(&jobs, &deps, &s, NOW, 6));
}

#[test]
fn future_job_is_pending_whatever_its_parents() {
    let list = vec![job(1, NOW + HOUR, None), job(2, NOW + 1, None)];
    let jobs = jobs_map(&list);
    let deps: HashMap<i32, Vec<i32>> = HashMap::new();
    let mut s = EpochState::new();
    let report = dispatch_initial(&vec![1, 2], &jobs, &deps, NOW, &mut s);
    assert!(report.running.is_empty());
    assert_eq!(report.pending, vec![1, 2]);
    assert!(report.completed.is_empty());
    assert_eq!(s.get(1), Some(Epoch::Pending));
}

#[test]
fn eligible_job_runs_then_ends() {
    let list = vec![job(1, NOW - HOUR, None)];
    let jobs = jobs_map(&list);
    let deps: HashMap<i32, Vec<i32>> = HashMap::new();
    let dependents = build_dependents_map(&deps);
    let mut s = EpochState::new();
    let report = dispatch_initial(&vec![1], &jobs, &deps, NOW, &mut s);
    assert_eq!(report.running, vec![1]);
    assert_eq!(s.get(1), Some(Epoch::Running));
    let next = on_job_finished(1, true, &jobs, &deps, &dependents, NOW, &mut s);
    assert!(next.is_empty());
    assert_eq!(s.get(1), Some(Epoch::Completed));
}

#[test]
fn independent_jobs_run_together() {
    let list = vec![job(1, NOW - HOUR, None), job(2, NOW - HOUR, None)];
    let jobs = jobs_map(&list);
    let deps: HashMap<i32, Vec<i32>> = HashMap::new();
    let mut s = EpochState::new();
    let report = dispatch_initial(&vec![1, 2], &jobs, &deps, NOW, &mut s);
    assert_eq!(report.running, vec![1, 2]);
    assert_eq!(s.get(1), Some(Epoch::Running));
    assert_eq!(s.get(2), Some(Epoch::Running));
}

#[test]
fn completion_dispatches_only_ready_dependent() {
    // P = 1, D1 = 2 (parents 1, 3), D2 = 4 (parents 1, 5); 3 is done, 5 is not.
    let list = vec![
        job(1, NOW - HOUR, Some(vec![2, 4])),
        job(2, NOW - HOUR, None),
        job(3, NOW + HOUR, None),
        job(4, NOW - HOUR, None),
        job(5, NOW + HOUR, None),
    ];
    let jobs = jobs_map(&list);
    let mut deps: HashMap<i32, Vec<i32>> = HashMap::new();
    deps.insert(2, vec![1, 3]);
    deps.insert(4, vec![1, 5]);
    let dependents = build_dependents_map(&deps);
    let mut s = EpochState::new();
    let order = topological_sort(&list);
    dispatch_initial(&order, &jobs, &deps, NOW, &mut s);
    s.set(3, Epoch::Completed);
    let next = on_job_finished(1, true, &jobs, &deps, &dependents, NOW, &mut s);
    assert_eq!(next, vec![2]);
    assert_eq!(s.get(2), Some(Epoch::Running));
    assert_eq!(s.get(4), Some(Epoch::Pending));
}

#[test]
fn failed_parent_blocks_dependents() {
    let list = vec![job(1, NOW - HOUR, Some(vec![2])), job(2, NOW - HOUR, None), job(3, NOW - HOUR, None)];
    let jobs = jobs_map(&list);
    let mut deps: HashMap<i32, Vec<i32>> = HashMap::new();
    deps.insert(2, vec![1, 3]);
    let dependents = build_dependents_map(&deps);
    let mut s = EpochState::new();
    let report = dispatch_initial(&vec![1, 3, 2], &jobs, &deps, NOW, &mut s);
    assert_eq!(report.running, vec![1, 3]);
    assert_eq!(report.pending, vec![2]);
    let next = on_job_finished(1, false, &jobs, &deps, &dependents, NOW, &mut s);
    assert!(next.is_empty());
    assert_eq!(s.get(1), Some(Epoch::Failed));
    let next = on_job_finished(3, true, &jobs, &deps, &dependents, NOW, &mut s);
    assert!(next.is_empty());
    assert_eq!(s.get(2), Some(Epoch::Pending));
}

#[test]
fn cascade_scenario_with_future_dependent() {
    // A = 1 (past, no deps), B = 2 (past, deps [A]), C = 3 (future, deps [A]).
    let list = vec![
        job(1, NOW - HOUR, Some(vec![2, 3])),
        job(2, NOW - HOUR, None),
        job(3, NOW + HOUR, None),
    ];
    let jobs = jobs_map(&list);
    let records = vec![
        CronJobDependency { cron_job_id: 2, parent_id: 1, epoch: 0 },
        CronJobDependency { cron_job_id: 3, parent_id: 1, epoch: 0 },
    ];
    let deps = build_dependency_map(&records);
    let dependents = build_dependents_map(&deps);
    let order = topological_sort(&list);
    assert_eq!(order[0], 1);
    let mut s = EpochState::new();
    let report = dispatch_initial(&order, &jobs, &deps, NOW, &mut s);
    assert_eq!(report.running, vec![1]);
    assert_eq!(sorted(report.pending.clone()), vec![2, 3]);
    let next = on_job_finished(1, true, &jobs, &deps, &dependents, NOW, &mut s);
    assert_eq!(next, vec![2]);
    assert_eq!(s.get(1), Some(Epoch::Completed));
    assert_eq!(s.get(2), Some(Epoch::Running));
    assert_eq!(s.get(3), Some(Epoch::Pending));
    let next = on_job_finished(2, true, &jobs, &deps, &dependents, NOW, &mut s);
    assert!(next.is_empty());
    assert_eq!(s.get(3), Some(Epoch::Pending));
}

#[test]
fn report_lists_completed_ids() {
    let list = vec![job(1, NOW - HOUR, None), job(2, NOW - HOUR, None)];
    let jobs = jobs_map(&list);
    let deps: HashMap<i32, Vec<i32>> = HashMap::new();
    let mut s = EpochState::new();
    let report = dispatch_initial(&vec![1], &jobs, &deps, NOW, &mut s);
    assert!(report.completed.is_empty());
    assert_eq!(report.running, vec![1]);
}

#[test]
fn start_run_reads_the_clock() {
    let list = vec![job(1, 0, None), job(2, i64::MAX, None)];
    let jobs = jobs_map(&list);
    let deps: HashMap<i32, Vec<i32>> = HashMap::new();
    let mut s = EpochState::new();
    let (report, now) = start_run(&vec![1, 2], &jobs, &deps, &mut s);
    assert!(now > NOW);
    assert_eq!(report.running, vec![1]);
    assert_eq!(report.pending, vec![2]);
    assert_eq!(s.get(1), Some(Epoch::Running));
}

#[test]
fn names_resolve_and_skip_unknown_ids() {
    let list = vec![job(1, NOW, None), job(2, NOW, None), job(2, NOW, None)];
    let mut list = list;
    list[2].cron_job_name = "second".to_string();
    assert_eq!(names_for_ids(&vec![2, 9, 1], &list), vec!["second".to_string(), "job1".to_string()]);
    assert_eq!(find_name(&list, 1), Some("job1".to_string()));
    assert_eq!(find_name(&list, 5), None);
}

#[test]
fn jobs_map_keeps_last_of_shared_id() {
    let mut list = vec![job(1, NOW, None), job(2, NOW, None), job(1, NOW + 5, None)];
    list[2].cron_job_name = "later".to_string();
    let m = build_jobs_map(list);
    assert_eq!(m.len(), 2);
    assert_eq!(m[&1].cron_job_name, "later");
    assert_eq!(m[&1].timings, NOW + 5);
    assert_eq!(m[&2].cron_job_name, "job2");
}
