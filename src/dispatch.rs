use vstd::prelude::*;
use std::collections::HashMap;
use crate::epoch::{Epoch, EpochState, pending_for};
use crate::job::CronJob;

verus! {

broadcast use {
    vstd::std_specs::hash::group_hash_axioms,
    vstd::seq_lib::group_seq_properties,
    vstd::seq_lib::group_filter_ensures,
};

/// The outcome of the initial dispatch pass of a run, in sorted order.
#[derive(Debug)]
pub struct JobStatusReport {
    pub running: Vec<i32>,
    pub completed: Vec<i32>,
    pub pending: Vec<i32>,
}

/// `id` is recorded as `Completed` in `s`.
pub open spec fn completed_in(s: Map<i32, Epoch>, id: i32) -> bool {
    s.contains_key(id) && s[id] == Epoch::Completed
}

/// Every parent that `deps` lists for `id` is `Completed` in `s`; a job
/// without an entry has no parents to wait for.
pub open spec fn parents_completed(deps: Map<i32, Vec<i32>>, s: Map<i32, Epoch>, id: i32) -> bool {
    deps.contains_key(id) ==> forall|i: int|
        0 <= i < deps[id]@.len() ==> completed_in(s, #[trigger] deps[id]@[i])
}

/// `id` is a known job whose schedule time is not after `now` and whose
/// parents are all `Completed`.
pub open spec fn is_eligible(
    jobs: Map<i32, CronJob>,
    deps: Map<i32, Vec<i32>>,
    s: Map<i32, Epoch>,
    now: i64,
    id: i32,
) -> bool {
    jobs.contains_key(id) && now >= jobs[id].timings && parents_completed(deps, s, id)
}

/// The eligibility rule as a predicate on ids.
pub open spec fn eligible_pred(
    jobs: Map<i32, CronJob>,
    deps: Map<i32, Vec<i32>>,
    s: Map<i32, Epoch>,
    now: i64,
) -> spec_fn(i32) -> bool {
    |id: i32| is_eligible(jobs, deps, s, now, id)
}

/// The negation of `eligible_pred`.
pub open spec fn ineligible_pred(
    jobs: Map<i32, CronJob>,
    deps: Map<i32, Vec<i32>>,
    s: Map<i32, Epoch>,
    now: i64,
) -> spec_fn(i32) -> bool {
    |id: i32| !is_eligible(jobs, deps, s, now, id)
}

/// The predicate "is recorded as `Completed` in `s`".
pub open spec fn completed_pred(s: Map<i32, Epoch>) -> spec_fn(i32) -> bool {
    |id: i32| completed_in(s, id)
}

/// The table at the start of a run: every id of `order` reset to `Pending`.
pub open spec fn reset_state(s: Map<i32, Epoch>, order: Seq<i32>) -> Map<i32, Epoch> {
    s.union_prefer_right(pending_for(order))
}

/// The table after the initial pass from `s0`: each eligible id of `order`
/// is `Running`, everything else as it was.
pub open spec fn started_state(
    jobs: Map<i32, CronJob>,
    deps: Map<i32, Vec<i32>>,
    s0: Map<i32, Epoch>,
    now: i64,
    order: Seq<i32>,
) -> Map<i32, Epoch> {
    Map::new(
        |k: i32| s0.contains_key(k),
        |k: i32| if order.contains(k) && is_eligible(jobs, deps, s0, now, k) { Epoch::Running } else { s0[k] },
    )
}

/// The dependents that `dependents` lists for `id`, none where it has no entry.
pub open spec fn dependents_of(dependents: Map<i32, Vec<i32>>, id: i32) -> Seq<i32> {
    if dependents.contains_key(id) { dependents[id]@ } else { Seq::empty() }
}

/// The terminal state that an outcome records.
pub open spec fn outcome(success: bool) -> Epoch {
    if success { Epoch::Completed } else { Epoch::Failed }
}

/// `id` is still `Pending` in `s` and eligible there.
pub open spec fn is_ready(
    jobs: Map<i32, CronJob>,
    deps: Map<i32, Vec<i32>>,
    s: Map<i32, Epoch>,
    now: i64,
    id: i32,
) -> bool {
    s.contains_key(id) && s[id] == Epoch::Pending && is_eligible(jobs, deps, s, now, id)
}

/// The table after `job` ends with `success`: its terminal state recorded,
/// then every listed dependent that became ready is `Running`.
pub open spec fn finished_state(
    jobs: Map<i32, CronJob>,
    deps: Map<i32, Vec<i32>>,
    dependents: Map<i32, Vec<i32>>,
    now: i64,
    s: Map<i32, Epoch>,
    job: i32,
    success: bool,
) -> Map<i32, Epoch> {
    cascade_state(jobs, deps, now, s.insert(job, outcome(success)), dependents_of(dependents, job))
}

/// The table `s1` after each id of `children` that is ready in `s1` moves to
/// `Running`.
pub open spec fn cascade_state(
    jobs: Map<i32, CronJob>,
    deps: Map<i32, Vec<i32>>,
    now: i64,
    s1: Map<i32, Epoch>,
    children: Seq<i32>,
) -> Map<i32, Epoch> {
    Map::new(
        |k: i32| s1.contains_key(k),
        |k: i32| if children.contains(k) && is_ready(jobs, deps, s1, now, k) { Epoch::Running } else { s1[k] },
    )
}

/// Whether every parent that `dependencies` lists for `id` is `Completed`.
pub fn parents_done(dependencies: &HashMap<i32, Vec<i32>>, state: &EpochState, id: i32) -> (r: bool)
    ensures
        r == parents_completed(dependencies@, state@, id),
{
    match dependencies.get(&id) {
        None => true,
        Some(parents) => {
            let mut i: usize = 0;
            while i < parents.len()
                invariant
                    dependencies@.contains_key(id),
                    parents@ == dependencies@[id]@,
                    i <= parents.len(),
                    forall|a: int| 0 <= a < i ==> completed_in(state@, #[trigger] parents@[a]),
                decreases parents.len() - i,
            {
                if !state.is_completed(parents[i]) {
                    return false;
                }
                i = i + 1;
            }
            true
        },
    }
}

/// Whether `id` may be dispatched at time `now`: a known job whose schedule
/// time has passed and whose parents are all `Completed`.
pub fn is_job_eligible(
    jobs: &HashMap<i32, CronJob>,
    dependencies: &HashMap<i32, Vec<i32>>,
    state: &EpochState,
    now: i64,
    id: i32,
) -> (r: bool)
    ensures
        r == is_eligible(jobs@, dependencies@, state@, now, id),
{
    match jobs.get(&id) {
        None => false,
        Some(job) => now >= job.timings && parents_done(dependencies, state, id),
    }
}

/// Moving ids from `Pending` to `Running` leaves the set of `Completed` ids,
/// and so every eligibility verdict, as it was.
proof fn lemma_same_completed(
    jobs: Map<i32, CronJob>,
    deps: Map<i32, Vec<i32>>,
    a: Map<i32, Epoch>,
    b: Map<i32, Epoch>,
    now: i64,
)
    requires
        forall|k: i32| #[trigger] completed_in(a, k) == completed_in(b, k),
    ensures
        forall|k: i32| #[trigger] is_eligible(jobs, deps, a, now, k) == is_eligible(jobs, deps, b, now, k),
{
    assert forall|k: i32| #[trigger] is_eligible(jobs, deps, a, now, k) == is_eligible(jobs, deps, b, now, k) by {
        if deps.contains_key(k) {
            assert(parents_completed(deps, a, k) == parents_completed(deps, b, k)) by {
                if parents_completed(deps, a, k) {
                    assert forall|i: int| 0 <= i < deps[k]@.len() implies completed_in(b, #[trigger] deps[k]@[i]) by {
                        assert(completed_in(a, deps[k]@[i]));
                    }
                }
                if parents_completed(deps, b, k) {
                    assert forall|i: int| 0 <= i < deps[k]@.len() implies completed_in(a, #[trigger] deps[k]@[i]) by {
                        assert(completed_in(b, deps[k]@[i]));
                    }
                }
            }
        }
    }
}

/// Filtering keeps a sequence free of repeats.
proof fn lemma_filter_no_duplicates(s: Seq<i32>, pred: spec_fn(i32) -> bool)
    requires
        s.no_duplicates(),
    ensures
        s.filter(pred).no_duplicates(),
    decreases s.len(),
{
    if s.len() > 0 {
        let init = s.drop_last();
        assert(init.push(s.last()) =~= s);
        assert(init.no_duplicates());
        lemma_filter_no_duplicates(init, pred);
        init.lemma_filter_push(s.last(), pred);
        if init.filter(pred).contains(s.last()) {
            init.lemma_filter_contains_rev(pred, s.last());
            let i = choose|i: int| 0 <= i < init.len() && init[i] == s.last();
            assert(s[i] == s[s.len() - 1]);
        }
    }
}

/// Starts a run: resets every id of `order` (a sorter's output, each id once)
/// to `Pending`, then walks `order` once and moves each eligible job to
/// `Running`. The caller launches the
/// jobs listed under `running`; the report classifies `order` by the table
/// as the pass leaves it.
pub fn dispatch_initial(
    order: &Vec<i32>,
    jobs: &HashMap<i32, CronJob>,
    dependencies: &HashMap<i32, Vec<i32>>,
    now: i64,
    state: &mut EpochState,
) -> (r: JobStatusReport)
    requires
        order@.no_duplicates(),
    ensures
        final(state)@ == started_state(jobs@, dependencies@, reset_state(old(state)@, order@), now, order@),
        r.running@.no_duplicates(),
        r.running@ == order@.filter(eligible_pred(jobs@, dependencies@, reset_state(old(state)@, order@), now)),
        r.pending@ == order@.filter(ineligible_pred(jobs@, dependencies@, reset_state(old(state)@, order@), now)),
        r.completed@ == order@.filter(completed_pred(final(state)@)),
{
    state.initialize(order);
    let ghost s0 = state@;
    let ghost elig = eligible_pred(jobs@, dependencies@, s0, now);
    let ghost inelig = ineligible_pred(jobs@, dependencies@, s0, now);
    let mut running: Vec<i32> = Vec::new();
    let mut pending: Vec<i32> = Vec::new();
    let mut i: usize = 0;
    while i < order.len()
        invariant
            i <= order.len(),
            s0 == reset_state(old(state)@, order@),
            elig == eligible_pred(jobs@, dependencies@, s0, now),
            inelig == ineligible_pred(jobs@, dependencies@, s0, now),
            state@ == started_state(jobs@, dependencies@, s0, now, order@.take(i as int)),
            running@ == order@.take(i as int).filter(elig),
            pending@ == order@.take(i as int).filter(inelig),
        decreases order.len() - i,
    {
        let id = order[i];
        proof {
            assert forall|k: i32| #[trigger] completed_in(state@, k) == completed_in(s0, k) by {
                if order@.take(i as int).contains(k) {
                    assert(order@.contains(k));
                    assert(pending_for(order@).contains_key(k));
                }
            }
            lemma_same_completed(jobs@, dependencies@, state@, s0, now);
            assert(order@.take(i + 1) =~= order@.take(i as int).push(id));
            order@.take(i as int).lemma_filter_push(id, elig);
            order@.take(i as int).lemma_filter_push(id, inelig);
            assert(order@.contains(id));
            assert(pending_for(order@).contains_key(id));
        }
        if is_job_eligible(jobs, dependencies, state, now, id) {
            state.set(id, Epoch::Running);
            running.push(id);
        } else {
            pending.push(id);
        }
        proof {
            assert(state@ =~= started_state(jobs@, dependencies@, s0, now, order@.take(i + 1)));
        }
        i = i + 1;
    }
    assert(order@.take(order.len() as int) =~= order@);
    proof {
        lemma_filter_no_duplicates(order@, elig);
    }
    let ghost fin = state@;
    let mut completed: Vec<i32> = Vec::new();
    let mut j: usize = 0;
    while j < order.len()
        invariant
            j <= order.len(),
            state@ == fin,
            completed@ == order@.take(j as int).filter(completed_pred(fin)),
        decreases order.len() - j,
    {
        let id = order[j];
        proof {
            assert(order@.take(j + 1) =~= order@.take(j as int).push(id));
            order@.take(j as int).lemma_filter_push(id, completed_pred(fin));
        }
        if state.is_completed(id) {
            completed.push(id);
        }
        j = j + 1;
    }
    assert(order@.take(order.len() as int) =~= order@);
    JobStatusReport { running, completed, pending }
}

/// Records that `job_id` ended (`Completed` on success, else `Failed`), then
/// dispatches each of its listed dependents that is still `Pending` and now
/// eligible: it moves to `Running` and is returned, once, for the caller to
/// launch. A `Failed` job dispatches nothing that depends on it.
pub fn on_job_finished(
    job_id: i32,
    success: bool,
    jobs: &HashMap<i32, CronJob>,
    dependencies: &HashMap<i32, Vec<i32>>,
    dependents: &HashMap<i32, Vec<i32>>,
    now: i64,
    state: &mut EpochState,
) -> (r: Vec<i32>)
    requires
        old(state)@.contains_key(job_id),
        old(state)@[job_id] == Epoch::Running,
    ensures
        final(state)@ == finished_state(jobs@, dependencies@, dependents@, now, old(state)@, job_id, success),
        r@.no_duplicates(),
        forall|c: i32| #[trigger] r@.contains(c) <==> (dependents_of(dependents@, job_id).contains(c)
            && is_ready(jobs@, dependencies@, old(state)@.insert(job_id, outcome(success)), now, c)),
{
    let terminal = if success { Epoch::Completed } else { Epoch::Failed };
    state.set(job_id, terminal);
    let ghost s1 = state@;
    let mut launched: Vec<i32> = Vec::new();
    match dependents.get(&job_id) {
        None => {
            assert(state@ =~= cascade_state(jobs@, dependencies@, now, s1, Seq::<i32>::empty()));
        },
        Some(children) => {
            let mut i: usize = 0;
            while i < children.len()
                invariant
                    i <= children.len(),
                    children@ == dependents_of(dependents@, job_id),
                    state@ == cascade_state(jobs@, dependencies@, now, s1, children@.take(i as int)),
                    launched@.no_duplicates(),
                    forall|c: i32| #[trigger] launched@.contains(c) <==> (children@.take(i as int).contains(c)
                        && is_ready(jobs@, dependencies@, s1, now, c)),
                decreases children.len() - i,
            {
                let c = children[i];
                proof {
                    assert forall|k: i32| #[trigger] completed_in(state@, k) == completed_in(s1, k) by {}
                    lemma_same_completed(jobs@, dependencies@, state@, s1, now);
                    assert(children@.take(i + 1) =~= children@.take(i as int).push(c));
                }
                let pending = match state.get(c) {
                    Some(e) => e == Epoch::Pending,
                    None => false,
                };
                if pending && is_job_eligible(jobs, dependencies, state, now, c) {
                    assert(!launched@.contains(c));
                    state.set(c, Epoch::Running);
                    launched.push(c);
                }
                proof {
                    assert(state@ =~= cascade_state(jobs@, dependencies@, now, s1, children@.take(i + 1)));
                }
                i = i + 1;
            }
            assert(children@.take(children.len() as int) =~= children@);
        },
    }
    launched
}

/// Relies on chrono's `Utc::now`, read as milliseconds since the Unix epoch
/// by `DateTime::timestamp_millis`. The clock's value is not constrained;
/// `Utc::now` panics where the system clock reads before the epoch, so the
/// value it returns is never negative.
#[verifier::external_body]
fn now_millis() -> (r: i64)
    ensures
        r >= 0,
{
    chrono::Utc::now().timestamp_millis()
}

/// Starts a run at the current time: the initial pass of `dispatch_initial`
/// at the instant read from the clock, which is returned with the report so
/// that the completions of the run are judged at the same instant.
pub fn start_run(
    order: &Vec<i32>,
    jobs: &HashMap<i32, CronJob>,
    dependencies: &HashMap<i32, Vec<i32>>,
    state: &mut EpochState,
) -> (r: (JobStatusReport, i64))
    requires
        order@.no_duplicates(),
    ensures
        r.1 >= 0,
        final(state)@ == started_state(jobs@, dependencies@, reset_state(old(state)@, order@), r.1, order@),
        r.0.running@.no_duplicates(),
        r.0.running@ == order@.filter(eligible_pred(jobs@, dependencies@, reset_state(old(state)@, order@), r.1)),
        r.0.pending@ == order@.filter(ineligible_pred(jobs@, dependencies@, reset_state(old(state)@, order@), r.1)),
        r.0.completed@ == order@.filter(completed_pred(final(state)@)),
{
    let now = now_millis();
    let report = dispatch_initial(order, jobs, dependencies, now, state);
    (report, now)
}

/// Ends of jobs applied in turn to the table `s`; an end reported for a job
/// that is not `Running` changes nothing.
pub open spec fn apply_events(
    jobs: Map<i32, CronJob>,
    deps: Map<i32, Vec<i32>>,
    dependents: Map<i32, Vec<i32>>,
    now: i64,
    s: Map<i32, Epoch>,
    events: Seq<(i32, bool)>,
) -> Map<i32, Epoch>
    decreases events.len(),
{
    if events.len() == 0 {
        s
    } else {
        let job = events[0].0;
        let next = if s.contains_key(job) && s[job] == Epoch::Running {
            finished_state(jobs, deps, dependents, now, s, job, events[0].1)
        } else {
            s
        };
        apply_events(jobs, deps, dependents, now, next, events.drop_first())
    }
}

/// A job whose schedule time lies after the run's time is never eligible,
/// whatever state its parents are in: the initial pass reports it pending
/// and not running, and no completion makes it ready.
pub proof fn lemma_future_job_stays_pending(
    order: Seq<i32>,
    jobs: Map<i32, CronJob>,
    deps: Map<i32, Vec<i32>>,
    s: Map<i32, Epoch>,
    now: i64,
    id: i32,
)
    requires
        order.contains(id),
        jobs.contains_key(id),
        now < jobs[id].timings,
    ensures
        forall|t: Map<i32, Epoch>| !#[trigger] is_eligible(jobs, deps, t, now, id),
        forall|t: Map<i32, Epoch>| !#[trigger] is_ready(jobs, deps, t, now, id),
        order.filter(ineligible_pred(jobs, deps, s, now)).contains(id),
        !order.filter(eligible_pred(jobs, deps, s, now)).contains(id),
{
    let i = choose|i: int| 0 <= i < order.len() && order[i] == id;
    assert(ineligible_pred(jobs, deps, s, now)(order[i]));
    assert(order.filter(ineligible_pred(jobs, deps, s, now)).contains(order[i]));
    let f = order.filter(eligible_pred(jobs, deps, s, now));
    if f.contains(id) {
        let j = choose|j: int| 0 <= j < f.len() && f[j] == id;
        assert(eligible_pred(jobs, deps, s, now)(f[j]));
    }
}

/// A job of the run whose schedule time has passed and whose parents are all
/// `Completed` at the start of the run is moved to `Running` by the initial
/// pass, and holds a terminal state once its end is recorded.
pub proof fn lemma_eligible_job_runs_to_end(
    order: Seq<i32>,
    jobs: Map<i32, CronJob>,
    deps: Map<i32, Vec<i32>>,
    dependents: Map<i32, Vec<i32>>,
    s: Map<i32, Epoch>,
    now: i64,
    id: i32,
    success: bool,
)
    requires
        order.no_duplicates(),
        order.contains(id),
        is_eligible(jobs, deps, reset_state(s, order), now, id),
    ensures
        started_state(jobs, deps, reset_state(s, order), now, order)[id] == Epoch::Running,
        order.filter(eligible_pred(jobs, deps, reset_state(s, order), now)).to_multiset().count(id) == 1,
        finished_state(
            jobs,
            deps,
            dependents,
            now,
            started_state(jobs, deps, reset_state(s, order), now, order),
            id,
            success,
        )[id].is_terminal(),
        order.filter(eligible_pred(jobs, deps, reset_state(s, order), now)).contains(id),
{
    assert(pending_for(order).contains_key(id));
    let i = choose|i: int| 0 <= i < order.len() && order[i] == id;
    let elig = eligible_pred(jobs, deps, reset_state(s, order), now);
    assert(elig(order[i]));
    let f = order.filter(elig);
    assert(f.contains(id));
    lemma_filter_no_duplicates(order, elig);
    f.lemma_multiset_has_no_duplicates();
    assert(f.to_multiset().count(id) > 0);
}

/// A dependent that is ready once its parent's end is recorded is moved to
/// `Running` by that completion, and holds a terminal state once its own end
/// is recorded.
pub proof fn lemma_ready_dependent_runs_to_end(
    jobs: Map<i32, CronJob>,
    deps: Map<i32, Vec<i32>>,
    dependents: Map<i32, Vec<i32>>,
    now: i64,
    s: Map<i32, Epoch>,
    job: i32,
    success: bool,
    c: i32,
    c_success: bool,
)
    requires
        s.contains_key(job),
        s[job] == Epoch::Running,
        dependents_of(dependents, job).contains(c),
        is_ready(jobs, deps, s.insert(job, outcome(success)), now, c),
    ensures
        finished_state(jobs, deps, dependents, now, s, job, success).contains_key(c),
        finished_state(jobs, deps, dependents, now, s, job, success)[c] == Epoch::Running,
        finished_state(
            jobs,
            deps,
            dependents,
            now,
            finished_state(jobs, deps, dependents, now, s, job, success),
            c,
            c_success,
        )[c].is_terminal(),
{
}

/// When a job ends successfully, a dependent whose other parents are all
/// `Completed` is dispatched, while one that still waits on another parent
/// stays `Pending` and is not dispatched.
pub proof fn lemma_completion_dispatches_only_ready_dependents(
    jobs: Map<i32, CronJob>,
    deps: Map<i32, Vec<i32>>,
    dependents: Map<i32, Vec<i32>>,
    now: i64,
    s: Map<i32, Epoch>,
    p: i32,
    d1: i32,
    d2: i32,
    q: i32,
)
    requires
        s.contains_key(p),
        s[p] == Epoch::Running,
        dependents_of(dependents, p).contains(d1),
        dependents_of(dependents, p).contains(d2),
        s.contains_key(d1),
        s[d1] == Epoch::Pending,
        s.contains_key(d2),
        s[d2] == Epoch::Pending,
        jobs.contains_key(d1),
        now >= jobs[d1].timings,
        deps.contains_key(d1) ==> forall|i: int|
            0 <= i < deps[d1]@.len() ==> #[trigger] deps[d1]@[i] == p || completed_in(s, deps[d1]@[i]),
        deps.contains_key(d2),
        deps[d2]@.contains(q),
        q != p,
        !completed_in(s, q),
    ensures
        is_ready(jobs, deps, s.insert(p, Epoch::Completed), now, d1),
        !is_ready(jobs, deps, s.insert(p, Epoch::Completed), now, d2),
        finished_state(jobs, deps, dependents, now, s, p, true)[d1] == Epoch::Running,
        finished_state(jobs, deps, dependents, now, s, p, true)[d2] == Epoch::Pending,
{
    let s1 = s.insert(p, Epoch::Completed);
    if deps.contains_key(d1) {
        assert forall|i: int| 0 <= i < deps[d1]@.len() implies completed_in(s1, #[trigger] deps[d1]@[i]) by {
            if deps[d1]@[i] != p {
                assert(completed_in(s, deps[d1]@[i]));
            }
        }
    }
    let i = choose|i: int| 0 <= i < deps[d2]@.len() && deps[d2]@[i] == q;
    assert(!completed_in(s1, deps[d2]@[i]));
}

/// A `Failed` parent blocks its dependents for the rest of the run: whatever
/// jobs end afterwards, the parent stays `Failed` and a `Pending` dependent
/// stays `Pending`.
pub proof fn lemma_failed_parent_blocks(
    jobs: Map<i32, CronJob>,
    deps: Map<i32, Vec<i32>>,
    dependents: Map<i32, Vec<i32>>,
    now: i64,
    s: Map<i32, Epoch>,
    events: Seq<(i32, bool)>,
    p: i32,
    c: i32,
)
    requires
        s.contains_key(p),
        s[p] == Epoch::Failed,
        deps.contains_key(c),
        deps[c]@.contains(p),
        s.contains_key(c),
        s[c] == Epoch::Pending,
    ensures
        apply_events(jobs, deps, dependents, now, s, events).contains_key(p),
        apply_events(jobs, deps, dependents, now, s, events)[p] == Epoch::Failed,
        apply_events(jobs, deps, dependents, now, s, events).contains_key(c),
        apply_events(jobs, deps, dependents, now, s, events)[c] == Epoch::Pending,
    decreases events.len(),
{
    if events.len() > 0 {
        let job = events[0].0;
        let next = if s.contains_key(job) && s[job] == Epoch::Running {
            finished_state(jobs, deps, dependents, now, s, job, events[0].1)
        } else {
            s
        };
        if s.contains_key(job) && s[job] == Epoch::Running {
            let s1 = s.insert(job, outcome(events[0].1));
            let i = choose|i: int| 0 <= i < deps[c]@.len() && deps[c]@[i] == p;
            assert(!completed_in(s1, deps[c]@[i]));
            assert(!is_ready(jobs, deps, s1, now, c));
            assert(!is_ready(jobs, deps, s1, now, p));
        }
        lemma_failed_parent_blocks(jobs, deps, dependents, now, next, events.drop_first(), p, c);
    }
}

/// Two jobs of a run that are both eligible when it starts, such as two
/// jobs with no shared ancestry whose schedule times have passed, are both
/// `Running` once the initial pass ends.
pub proof fn lemma_independent_jobs_run_together(
    order: Seq<i32>,
    jobs: Map<i32, CronJob>,
    deps: Map<i32, Vec<i32>>,
    s: Map<i32, Epoch>,
    now: i64,
    a: i32,
    b: i32,
)
    requires
        order.contains(a),
        order.contains(b),
        is_eligible(jobs, deps, reset_state(s, order), now, a),
        is_eligible(jobs, deps, reset_state(s, order), now, b),
    ensures
        started_state(jobs, deps, reset_state(s, order), now, order)[a] == Epoch::Running,
        started_state(jobs, deps, reset_state(s, order), now, order)[b] == Epoch::Running,
{
    assert(pending_for(order).contains_key(a));
    assert(pending_for(order).contains_key(b));
}

} // verus!
