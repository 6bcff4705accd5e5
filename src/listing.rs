use vstd::prelude::*;
use crate::job::CronJob;
use std::collections::HashMap;

verus! {

broadcast use vstd::std_specs::hash::group_hash_axioms;

/// The name of the job with id `id`; where several jobs share the id, the
/// last one listed.
pub open spec fn name_lookup(jobs: Seq<CronJob>, id: i32) -> Option<Seq<char>>
    decreases jobs.len(),
{
    if jobs.len() == 0 {
        None
    } else if jobs.last().cron_job_id == id {
        Some(jobs.last().cron_job_name@)
    } else {
        name_lookup(jobs.drop_last(), id)
    }
}

/// The names of the jobs that `ids` refer to, in order, skipping ids that
/// name no job.
pub open spec fn resolved_names(ids: Seq<i32>, jobs: Seq<CronJob>) -> Seq<Seq<char>>
    decreases ids.len(),
{
    if ids.len() == 0 {
        Seq::empty()
    } else {
        let rest = resolved_names(ids.drop_last(), jobs);
        match name_lookup(jobs, ids.last()) {
            Some(n) => rest.push(n),
            None => rest,
        }
    }
}

/// The views of a sequence of strings.
pub open spec fn string_views(v: Seq<String>) -> Seq<Seq<char>> {
    v.map_values(|s: String| s@)
}

/// The name of the job with id `id` in `jobs`, if any (the last such job).
pub fn find_name(jobs: &[CronJob], id: i32) -> (r: Option<String>)
    ensures
        match r {
            Some(s) => name_lookup(jobs@, id) == Some(s@),
            None => name_lookup(jobs@, id) is None,
        },
{
    let mut i: usize = jobs.len();
    assert(jobs@.take(i as int) =~= jobs@);
    while i > 0
        invariant
            i <= jobs.len(),
            name_lookup(jobs@, id) == name_lookup(jobs@.take(i as int), id),
        decreases i,
    {
        let ghost pre = jobs@.take(i as int);
        assert(pre.drop_last() =~= jobs@.take(i - 1));
        if jobs[i - 1].cron_job_id == id {
            return Some(jobs[i - 1].cron_job_name.clone());
        }
        i = i - 1;
    }
    None
}

/// Resolves job ids to job names, in order; ids that name no job in `jobs`
/// are left out.
pub fn names_for_ids(ids: &Vec<i32>, jobs: &[CronJob]) -> (r: Vec<String>)
    ensures
        string_views(r@) == resolved_names(ids@, jobs@),
{
    let mut r: Vec<String> = Vec::new();
    let mut i: usize = 0;
    while i < ids.len()
        invariant
            i <= ids.len(),
            string_views(r@) == resolved_names(ids@.take(i as int), jobs@),
        decreases ids.len() - i,
    {
        let ghost pre = ids@.take(i + 1);
        assert(pre.drop_last() =~= ids@.take(i as int));
        let ghost before = r@;
        match find_name(jobs, ids[i]) {
            Some(n) => {
                r.push(n);
                assert(string_views(r@) =~= string_views(before).push(r@.last()@));
            },
            None => {},
        }
        i = i + 1;
    }
    assert(ids@.take(ids.len() as int) =~= ids@);
    r
}

/// The job with id `id`; where several jobs share the id, the last one listed.
pub open spec fn job_lookup(jobs: Seq<CronJob>, id: i32) -> Option<CronJob>
    decreases jobs.len(),
{
    if jobs.len() == 0 {
        None
    } else if jobs.last().cron_job_id == id {
        Some(jobs.last())
    } else {
        job_lookup(jobs.drop_last(), id)
    }
}

/// Indexes jobs by id; where several jobs share an id, the last one listed
/// is kept.
pub fn build_jobs_map(jobs: Vec<CronJob>) -> (r: HashMap<i32, CronJob>)
    ensures
        forall|k: i32| #[trigger] r@.contains_key(k) <==> job_lookup(jobs@, k) is Some,
        forall|k: i32| #[trigger] r@.contains_key(k) ==> job_lookup(jobs@, k) == Some(r@[k]),
{
    let ghost all = jobs@;
    let mut r: HashMap<i32, CronJob> = HashMap::new();
    let mut rest = jobs;
    let ghost mut n: int = 0;
    while rest.len() > 0
        invariant
            0 <= n <= all.len(),
            rest@ == all.subrange(n, all.len() as int),
            forall|k: i32| #[trigger] r@.contains_key(k) <==> job_lookup(all.take(n), k) is Some,
            forall|k: i32| #[trigger] r@.contains_key(k) ==> job_lookup(all.take(n), k) == Some(r@[k]),
        decreases rest.len(),
    {
        let job = rest.remove(0);
        proof {
            assert(job == all[n]);
            assert(rest@ =~= all.subrange(n + 1, all.len() as int));
            assert(all.take(n + 1).drop_last() =~= all.take(n));
        }
        r.insert(job.cron_job_id, job);
        proof {
            n = n + 1;
        }
    }
    assert(all.take(all.len() as int) =~= all);
    r
}

} // verus!
