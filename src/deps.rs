use vstd::prelude::*;
use std::collections::HashMap;
use crate::job::CronJobDependency;
use vstd::std_specs::hash::spec_hash_map_iter;
use vstd::std_specs::iter::IteratorSpec;

verus! {

broadcast use {vstd::std_specs::hash::group_hash_axioms, vstd::seq_lib::group_seq_properties};

/// The parent ids that the records of `deps` list for job `j`, in record order.
pub open spec fn parents_listed(deps: Seq<CronJobDependency>, j: i32) -> Seq<i32>
    decreases deps.len(),
{
    if deps.len() == 0 {
        Seq::empty()
    } else {
        let rest = parents_listed(deps.drop_last(), j);
        if deps.last().cron_job_id == j {
            rest.push(deps.last().parent_id)
        } else {
            rest
        }
    }
}

/// `p` is listed as a parent of `c` in the dependency index `deps`.
pub open spec fn depends_on(deps: Map<i32, Vec<i32>>, c: i32, p: i32) -> bool {
    deps.contains_key(c) && deps[c]@.contains(p)
}

/// Groups dependency records by dependent job: job id to its parent ids,
/// in record order; a job without records has no entry.
pub fn build_dependency_map(deps: &Vec<CronJobDependency>) -> (r: HashMap<i32, Vec<i32>>)
    ensures
        forall|j: i32| #[trigger] r@.contains_key(j) <==> parents_listed(deps@, j).len() > 0,
        forall|j: i32| #[trigger] r@.contains_key(j) ==> r@[j]@ == parents_listed(deps@, j),
{
    let mut r: HashMap<i32, Vec<i32>> = HashMap::new();
    let mut i: usize = 0;
    while i < deps.len()
        invariant
            i <= deps.len(),
            forall|j: i32| #[trigger] r@.contains_key(j) <==> parents_listed(deps@.subrange(0, i as int), j).len() > 0,
            forall|j: i32| #[trigger] r@.contains_key(j) ==> r@[j]@ == parents_listed(deps@.subrange(0, i as int), j),
        decreases deps.len() - i,
    {
        let d = deps[i];
        let mut list = match r.remove(&d.cron_job_id) {
            Some(v) => v,
            None => Vec::new(),
        };
        list.push(d.parent_id);
        r.insert(d.cron_job_id, list);
        proof {
            let next = deps@.subrange(0, i + 1);
            assert(next.drop_last() =~= deps@.subrange(0, i as int));
            assert(next.last() == d);
        }
        i = i + 1;
    }
    assert(deps@.subrange(0, deps.len() as int) =~= deps@);
    r
}

/// How many times the list under `k` in `m` holds `x`; none without an entry.
pub open spec fn listed_count(m: Map<i32, Vec<i32>>, k: i32, x: i32) -> nat {
    if m.contains_key(k) { m[k]@.to_multiset().count(x) } else { 0 }
}

/// One of the first `n` entries of `entries` has key `c`.
pub open spec fn seen_key(entries: Seq<(&i32, &Vec<i32>)>, n: int, c: i32) -> bool {
    exists|i: int| 0 <= i < n && *entries[i].0 == c
}

/// The reverse of a dependency index: parent id to the jobs that list it.
/// Each job appears under a parent as many times as it lists that parent,
/// and a parent has an entry exactly when some job lists it.
pub fn build_dependents_map(dependencies: &HashMap<i32, Vec<i32>>) -> (r: HashMap<i32, Vec<i32>>)
    ensures
        is_reverse_index(r@, dependencies@),
        forall|p: i32, c: i32|
            #![trigger r@[p]@.contains(c)]
            #![trigger depends_on(dependencies@, c, p)]
            (r@.contains_key(p) && r@[p]@.contains(c)) <==> depends_on(dependencies@, c, p),
        forall|p: i32| #[trigger] r@.contains_key(p) ==> r@[p]@.len() > 0,
{
    let mut r: HashMap<i32, Vec<i32>> = HashMap::new();
    let entries = dependencies.iter();
    let ghost all = spec_hash_map_iter(dependencies).remaining();
    proof {
        assert(entries == spec_hash_map_iter(dependencies));
        assert(all.no_duplicates());
    }
    let ghost mut n: int = 0;
    for (job_id, parents) in it: entries
        invariant
            n == it.index(),
            it.seq() == all,
            all == spec_hash_map_iter(dependencies).remaining(),
            all.no_duplicates(),
            forall|p: i32, c: i32| #[trigger] listed_count(r@, p, c)
                == (if seen_key(all, n, c) { listed_count(dependencies@, c, p) } else { 0 }),
            forall|p: i32| #[trigger] r@.contains_key(p) ==> r@[p]@.len() > 0,
    {
        proof {
            assert(dependencies@.contains_key(*all[n].0));
            assert(!seen_key(all, n, *job_id)) by {
                if seen_key(all, n, *job_id) {
                    let i = choose|i: int| 0 <= i < n && *all[i].0 == *job_id;
                    assert(dependencies@.contains_key(*all[i].0));
                    assert(all[i] == all[n]);
                }
            }
        }
        let mut j: usize = 0;
        let ghost mut k: int = 0;
        while j < parents.len()
            invariant
                k == j,
                j <= parents.len(),
                0 <= n < all.len(),
                *all[n].0 == *job_id,
                *all[n].1 == *parents,
                forall|p: i32, c: i32| #[trigger] listed_count(r@, p, c)
                    == (if seen_key(all, n, c) { listed_count(dependencies@, c, p) } else { 0 })
                        + (if c == *job_id { parents@.take(k).to_multiset().count(p) } else { 0 }),
                forall|p: i32| #[trigger] r@.contains_key(p) ==> r@[p]@.len() > 0,
            decreases parents.len() - j,
        {
            let p = parents[j];
            let ghost before = r@;
            let mut list = match r.remove(&p) {
                Some(v) => v,
                None => Vec::new(),
            };
            let ghost old_list = list@;
            list.push(*job_id);
            r.insert(p, list);
            proof {
                assert(parents@.take(k + 1) =~= parents@.take(k).push(p));
                assert forall|q: i32, c: i32| #[trigger] listed_count(r@, q, c)
                    == listed_count(before, q, c) + (if q == p && c == *job_id { 1int } else { 0int }) by {
                    if q == p {
                        assert(r@[q]@ == old_list.push(*job_id));
                        if !before.contains_key(p) {
                            assert(old_list =~= Seq::<i32>::empty());
                        }
                    }
                }
                k = k + 1;
            }
            j = j + 1;
        }
        proof {
            assert(parents@.take(k) =~= parents@);
            assert(*parents == dependencies@[*job_id]);
            assert forall|c: i32| #[trigger] seen_key(all, n + 1, c) == (seen_key(all, n, c) || c == *job_id) by {
                if c == *job_id {
                    assert(*all[n].0 == c);
                }
                if seen_key(all, n + 1, c) && c != *job_id {
                    let i = choose|i: int| 0 <= i < n + 1 && *all[i].0 == c;
                    assert(i < n);
                }
            }
            n = n + 1;
        }
    }
    proof {
        assert forall|c: i32| dependencies@.contains_key(c) implies #[trigger] seen_key(all, n, c) by {
            assert(all.contains((&c, &dependencies@[c])));
            let i = choose|i: int| 0 <= i < all.len() && all[i] == (&c, &dependencies@[c]);
            assert(*all[i].0 == c);
        }
        assert forall|p: i32, c: i32| #[trigger] listed_count(r@, p, c) == listed_count(dependencies@, c, p) by {
            if !dependencies@.contains_key(c) && seen_key(all, n, c) {
                let i = choose|i: int| 0 <= i < n && *all[i].0 == c;
                assert(dependencies@.contains_key(*all[i].0));
            }
        }
        assert forall|p: i32, c: i32|
            #![trigger r@[p]@.contains(c)]
            #![trigger depends_on(dependencies@, c, p)]
            (r@.contains_key(p) && r@[p]@.contains(c)) <==> depends_on(dependencies@, c, p) by {
            assert(listed_count(r@, p, c) == listed_count(dependencies@, c, p));
        }
    }
    r
}

/// `r` lists, under each parent, each dependent of `d` as many times as
/// that dependent lists the parent.
pub open spec fn is_reverse_index(r: Map<i32, Vec<i32>>, d: Map<i32, Vec<i32>>) -> bool {
    forall|p: i32, c: i32| #[trigger] listed_count(r, p, c) == listed_count(d, c, p)
}

/// Reversing a dependency index twice gives back every edge of the index,
/// each as many times as it was listed.
pub proof fn lemma_reverse_twice_restores_edges(
    d: Map<i32, Vec<i32>>,
    r: Map<i32, Vec<i32>>,
    r2: Map<i32, Vec<i32>>,
)
    requires
        is_reverse_index(r, d),
        is_reverse_index(r2, r),
    ensures
        forall|c: i32, p: i32| #[trigger] listed_count(r2, c, p) == listed_count(d, c, p),
{
    assert forall|c: i32, p: i32| #[trigger] listed_count(r2, c, p) == listed_count(d, c, p) by {
        assert(listed_count(r2, c, p) == listed_count(r, p, c));
        assert(listed_count(r, p, c) == listed_count(d, c, p));
    }
}

} // verus!
