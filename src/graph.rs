use vstd::prelude::*;
use crate::job::{CronJob, children_of};

verus! {

broadcast use vstd::seq_lib::group_seq_properties;

/// `jobs` holds an edge from `p` to `c`: a job with id `p` lists `c` as a child.
pub open spec fn is_edge(jobs: Seq<CronJob>, p: i32, c: i32) -> bool {
    exists|i: int, j: int|
        0 <= i < jobs.len() && jobs[i].cron_job_id == p && 0 <= j < children_of(jobs[i]).len()
            && #[trigger] children_of(jobs[i])[j] == c
}

/// `x` is a job id of `jobs` or a child id that one of them lists.
pub open spec fn is_node(jobs: Seq<CronJob>, x: i32) -> bool {
    exists|i: int|
        0 <= i < jobs.len() && (#[trigger] jobs[i].cron_job_id == x || children_of(jobs[i]).contains(x))
}

/// The first `k` ids of `order` are causally placed: each comes after all its
/// parents. Every id after them has a parent that is also after them, so it
/// lies on or below a cycle.
pub open spec fn settled_prefix(jobs: Seq<CronJob>, order: Seq<i32>, k: int) -> bool {
    &&& 0 <= k <= order.len()
    &&& forall|i: int, p: i32|
        0 <= i < k && #[trigger] is_edge(jobs, p, order[i]) ==> order.subrange(0, i).contains(p)
    &&& forall|i: int| k <= i < order.len() ==> #[trigger] blocked_by(jobs, order.subrange(k, order.len() as int), order[i])
}

/// `x` has a parent among `rest`.
pub open spec fn blocked_by(jobs: Seq<CronJob>, rest: Seq<i32>, x: i32) -> bool {
    exists|p: i32| #[trigger] is_edge(jobs, p, x) && rest.contains(p)
}

/// `order` is an ordering of the graph of `jobs`: each node exactly once,
/// with a causally placed prefix and a blocked rest.
pub open spec fn is_sort_of(jobs: Seq<CronJob>, order: Seq<i32>) -> bool {
    &&& order.no_duplicates()
    &&& forall|x: i32| order.contains(x) <==> is_node(jobs, x)
    &&& exists|k: int| settled_prefix(jobs, order, k)
}

/// Whether `x` occurs in `v`.
pub fn contains_id(v: &Vec<i32>, x: i32) -> (r: bool)
    ensures
        r == v@.contains(x),
{
    let mut i: usize = 0;
    while i < v.len()
        invariant
            i <= v.len(),
            forall|j: int| 0 <= j < i ==> v@[j] != x,
        decreases v.len() - i,
    {
        if v[i] == x {
            return true;
        }
        i = i + 1;
    }
    false
}

/// The distinct node ids of `jobs`: job ids and the child ids they list.
fn collect_ids(jobs: &[CronJob]) -> (ids: Vec<i32>)
    ensures
        ids@.no_duplicates(),
        forall|x: i32| ids@.contains(x) <==> is_node(jobs@, x),
{
    let mut ids: Vec<i32> = Vec::new();
    let mut i: usize = 0;
    while i < jobs.len()
        invariant
            i <= jobs.len(),
            ids@.no_duplicates(),
            forall|x: i32| ids@.contains(x) ==> is_node(jobs@, x),
            forall|a: int| 0 <= a < i ==> ids@.contains(#[trigger] jobs@[a].cron_job_id),
            forall|a: int, b: int|
                0 <= a < i && 0 <= b < children_of(jobs@[a]).len() ==> ids@.contains(
                    #[trigger] children_of(jobs@[a])[b],
                ),
        decreases jobs.len() - i,
    {
        let id = jobs[i].cron_job_id;
        if !contains_id(&ids, id) {
            ids.push(id);
        }
        match &jobs[i].children {
            Some(children) => {
                let mut j: usize = 0;
                while j < children.len()
                    invariant
                        i < jobs.len(),
                        j <= children.len(),
                        children@ == children_of(jobs@[i as int]),
                        ids@.no_duplicates(),
                        ids@.contains(jobs@[i as int].cron_job_id),
                        forall|x: i32| ids@.contains(x) ==> is_node(jobs@, x),
                        forall|a: int| 0 <= a < i ==> ids@.contains(#[trigger] jobs@[a].cron_job_id),
                        forall|a: int, b: int|
                            0 <= a < i && 0 <= b < children_of(jobs@[a]).len() ==> ids@.contains(
                                #[trigger] children_of(jobs@[a])[b],
                            ),
                        forall|b: int| 0 <= b < j ==> ids@.contains(#[trigger] children@[b]),
                    decreases children.len() - j,
                {
                    let c = children[j];
                    assert(children_of(jobs@[i as int]).contains(c));
                    if !contains_id(&ids, c) {
                        ids.push(c);
                    }
                    j = j + 1;
                }
            },
            None => {},
        }
        i = i + 1;
    }
    proof {
        assert forall|x: i32| is_node(jobs@, x) implies ids@.contains(x) by {
            let a = choose|a: int|
                0 <= a < jobs.len() && (#[trigger] jobs@[a].cron_job_id == x || children_of(jobs@[a]).contains(x));
            if jobs@[a].cron_job_id != x {
                let b = choose|b: int| 0 <= b < children_of(jobs@[a]).len() && children_of(jobs@[a])[b] == x;
                assert(ids@.contains(children_of(jobs@[a])[b]));
            }
        }
    }
    ids
}

/// `x` has a parent outside `placed`.
pub open spec fn waits_on(jobs: Seq<CronJob>, placed: Seq<i32>, x: i32) -> bool {
    exists|p: i32| #[trigger] is_edge(jobs, p, x) && !placed.contains(p)
}

proof fn lemma_edge_source_is_node(jobs: Seq<CronJob>, p: i32, c: i32)
    requires
        is_edge(jobs, p, c),
    ensures
        is_node(jobs, p),
{
    let (i, j) = choose|i: int, j: int|
        0 <= i < jobs.len() && jobs[i].cron_job_id == p && 0 <= j < children_of(jobs[i]).len()
            && #[trigger] children_of(jobs[i])[j] == c;
    assert(jobs[i].cron_job_id == p);
}

proof fn lemma_distinct_subset_len(a: Seq<i32>, b: Seq<i32>)
    requires
        a.no_duplicates(),
        b.no_duplicates(),
        forall|x: i32| a.contains(x) ==> b.contains(x),
    ensures
        a.len() <= b.len(),
{
    a.unique_seq_to_set();
    b.unique_seq_to_set();
    assert(a.to_set().subset_of(b.to_set()));
    vstd::set_lib::lemma_len_subset(a.to_set(), b.to_set());
}

/// Whether every parent of `id` in `jobs` occurs in `placed`.
fn parents_placed(jobs: &[CronJob], id: i32, placed: &Vec<i32>) -> (r: bool)
    ensures
        r == (forall|p: i32| #[trigger] is_edge(jobs@, p, id) ==> placed@.contains(p)),
{
    let mut i: usize = 0;
    while i < jobs.len()
        invariant
            i <= jobs.len(),
            forall|a: int, b: int|
                0 <= a < i && 0 <= b < children_of(jobs@[a]).len() && #[trigger] children_of(jobs@[a])[b] == id
                    ==> placed@.contains(jobs@[a].cron_job_id),
        decreases jobs.len() - i,
    {
        match &jobs[i].children {
            Some(children) => {
                let mut j: usize = 0;
                while j < children.len()
                    invariant
                        i < jobs.len(),
                        j <= children.len(),
                        children@ == children_of(jobs@[i as int]),
                        forall|a: int, b: int|
                            0 <= a < i && 0 <= b < children_of(jobs@[a]).len() && #[trigger] children_of(jobs@[a])[b] == id
                                ==> placed@.contains(jobs@[a].cron_job_id),
                        forall|b: int| 0 <= b < j && #[trigger] children@[b] == id
                            ==> placed@.contains(jobs@[i as int].cron_job_id),
                    decreases children.len() - j,
                {
                    if children[j] == id && !contains_id(placed, jobs[i].cron_job_id) {
                        proof {
                            assert(children_of(jobs@[i as int])[j as int] == id);
                            assert(is_edge(jobs@, jobs@[i as int].cron_job_id, id));
                        }
                        return false;
                    }
                    j = j + 1;
                }
            },
            None => {},
        }
        i = i + 1;
    }
    proof {
        assert forall|p: i32| #[trigger] is_edge(jobs@, p, id) implies placed@.contains(p) by {
            let (a, b) = choose|a: int, b: int|
                0 <= a < jobs.len() && jobs@[a].cron_job_id == p && 0 <= b < children_of(jobs@[a]).len()
                    && #[trigger] children_of(jobs@[a])[b] == id;
        }
    }
    true
}

/// An id of `ids` that is not yet in `placed` and whose parents all are; none
/// where every such id still waits on an unplaced parent.
fn find_ready(jobs: &[CronJob], ids: &Vec<i32>, placed: &Vec<i32>) -> (r: Option<i32>)
    ensures
        r matches Some(x) ==> ids@.contains(x) && !placed@.contains(x)
            && forall|p: i32| #[trigger] is_edge(jobs@, p, x) ==> placed@.contains(p),
        r is None ==> forall|x: i32| ids@.contains(x) && !placed@.contains(x) ==> waits_on(jobs@, placed@, x),
{
    let mut i: usize = 0;
    while i < ids.len()
        invariant
            i <= ids.len(),
            forall|a: int| 0 <= a < i && !placed@.contains(#[trigger] ids@[a]) ==> waits_on(jobs@, placed@, ids@[a]),
        decreases ids.len() - i,
    {
        let x = ids[i];
        if !contains_id(placed, x) {
            if parents_placed(jobs, x, placed) {
                return Some(x);
            }
        }
        i = i + 1;
    }
    None
}

/// Orders the ids of a group's jobs (job ids and the child ids they list)
/// so that, as far as cycles allow, every job comes after its parents. Ids
/// that a cycle keeps from being placed come last, in no particular order.
pub fn topological_sort(jobs: &[CronJob]) -> (order: Vec<i32>)
    ensures
        is_sort_of(jobs@, order@),
{
    let ids = collect_ids(jobs);
    let mut order: Vec<i32> = Vec::new();
    let mut done = false;
    while !done
        invariant
            ids@.no_duplicates(),
            forall|x: i32| ids@.contains(x) <==> is_node(jobs@, x),
            order@.no_duplicates(),
            order.len() <= ids.len(),
            forall|x: i32| order@.contains(x) ==> ids@.contains(x),
            forall|i: int, p: i32|
                0 <= i < order.len() && #[trigger] is_edge(jobs@, p, order@[i]) ==> order@.subrange(0, i).contains(p),
            done ==> forall|x: i32| ids@.contains(x) && !order@.contains(x) ==> waits_on(jobs@, order@, x),
        decreases ids.len() - order.len() + (if done { 0int } else { 1int }),
    {
        match find_ready(jobs, &ids, &order) {
            None => {
                done = true;
            },
            Some(x) => {
                let ghost before = order@;
                order.push(x);
                proof {
                    lemma_distinct_subset_len(order@, ids@);
                    assert forall|i: int, p: i32|
                        0 <= i < order.len() && #[trigger] is_edge(jobs@, p, order@[i]) implies order@.subrange(0, i).contains(p) by {
                        if i < before.len() {
                            assert(order@.subrange(0, i) =~= before.subrange(0, i));
                        } else {
                            assert(order@.subrange(0, i) =~= before);
                        }
                    }
                }
            },
        }
    }
    let k = order.len();
    let ghost settled = order@;
    let mut i: usize = 0;
    while i < ids.len()
        invariant
            i <= ids.len(),
            k <= order.len(),
            order@.subrange(0, k as int) == settled,
            ids@.no_duplicates(),
            forall|x: i32| ids@.contains(x) <==> is_node(jobs@, x),
            order@.no_duplicates(),
            forall|x: i32| order@.contains(x) ==> ids@.contains(x),
            forall|a: int| 0 <= a < i ==> order@.contains(#[trigger] ids@[a]),
            forall|m: int| k <= m < order.len() ==> waits_on(jobs@, settled, #[trigger] order@[m]),
            forall|x: i32| ids@.contains(x) && !settled.contains(x) ==> waits_on(jobs@, settled, x),
        decreases ids.len() - i,
    {
        let x = ids[i];
        if !contains_id(&order, x) {
            let ghost before = order@;
            order.push(x);
            proof {
                assert(order@.subrange(0, k as int) =~= before.subrange(0, k as int));
                assert(!settled.contains(x)) by {
                    if settled.contains(x) {
                        let q = choose|q: int| 0 <= q < settled.len() && settled[q] == x;
                        assert(before[q] == x);
                    }
                }
            }
        }
        i = i + 1;
    }
    proof {
        let o = order@;
        assert forall|x: i32| o.contains(x) <==> is_node(jobs@, x) by {
            if is_node(jobs@, x) {
                let a = choose|a: int| 0 <= a < ids.len() && ids@[a] == x;
                assert(o.contains(ids@[a]));
            }
        }
        assert forall|m: int, p: i32| 0 <= m < k && #[trigger] is_edge(jobs@, p, o[m]) implies o.subrange(0, m).contains(p) by {
            assert(settled[m] == o[m]);
            assert(settled.subrange(0, m) =~= o.subrange(0, m));
        }
        assert forall|m: int| k <= m < o.len() implies #[trigger] blocked_by(jobs@, o.subrange(k as int, o.len() as int), o[m]) by {
            let p = choose|p: i32| #[trigger] is_edge(jobs@, p, o[m]) && !settled.contains(p);
            lemma_edge_source_is_node(jobs@, p, o[m]);
            let q = choose|q: int| 0 <= q < o.len() && o[q] == p;
            if q < k {
                assert(settled[q] == p);
            }
            assert(o.subrange(k as int, o.len() as int)[q - k] == p);
        }
        assert(settled_prefix(jobs@, o, k as int));
    }
    order
}

proof fn lemma_edge_target_is_node(jobs: Seq<CronJob>, p: i32, c: i32)
    requires
        is_edge(jobs, p, c),
    ensures
        is_node(jobs, c),
{
    let (i, j) = choose|i: int, j: int|
        0 <= i < jobs.len() && jobs[i].cron_job_id == p && 0 <= j < children_of(jobs[i]).len()
            && #[trigger] children_of(jobs[i])[j] == c;
    assert(children_of(jobs[i]).contains(c));
    assert(jobs[i].cron_job_id == p);
}

proof fn lemma_blocked_rank_bound(
    jobs: Seq<CronJob>,
    order: Seq<i32>,
    k: int,
    rank: Map<i32, nat>,
    n: nat,
)
    requires
        settled_prefix(jobs, order, k),
        forall|a: i32, b: i32| #[trigger] is_edge(jobs, a, b) && rank.contains_key(b)
            ==> rank.contains_key(a) && rank[a] < rank[b],
    ensures
        forall|m: int| k <= m < order.len() && rank.contains_key(#[trigger] order[m]) ==> rank[order[m]] > n,
    decreases n,
{
    assert forall|m: int| k <= m < order.len() && rank.contains_key(#[trigger] order[m]) implies rank[order[m]] > n by {
        assert(blocked_by(jobs, order.subrange(k, order.len() as int), order[m]));
        let p = choose|p: i32|
            #[trigger] is_edge(jobs, p, order[m]) && order.subrange(k, order.len() as int).contains(p);
        let q = choose|q: int|
            0 <= q < order.len() - k && order.subrange(k, order.len() as int)[q] == p;
        assert(order[k + q] == p);
        if n > 0 {
            lemma_blocked_rank_bound(jobs, order, k, rank, (n - 1) as nat);
            assert(rank[order[k + q]] > n - 1);
        }
    }
}

/// In an ordering, a parent comes before its child whenever the parent's
/// own ancestry holds no cycle. That is witnessed by a rank, defined on a set
/// of ids that holds the parent and the parents of each of its members, which
/// grows strictly along every edge into that set. Over a graph without any
/// cycle, the rank can cover every id.
pub proof fn lemma_parent_precedes_child(
    jobs: Seq<CronJob>,
    order: Seq<i32>,
    rank: Map<i32, nat>,
    p: i32,
    c: i32,
)
    requires
        is_sort_of(jobs, order),
        forall|a: i32, b: i32| #[trigger] is_edge(jobs, a, b) && rank.contains_key(b)
            ==> rank.contains_key(a) && rank[a] < rank[b],
        rank.contains_key(p),
        is_edge(jobs, p, c),
    ensures
        exists|i: int, j: int| 0 <= i < j < order.len() && order[i] == p && order[j] == c,
{
    let k = choose|k: int| settled_prefix(jobs, order, k);
    lemma_edge_source_is_node(jobs, p, c);
    lemma_edge_target_is_node(jobs, p, c);
    let i = choose|i: int| 0 <= i < order.len() && order[i] == p;
    let j = choose|j: int| 0 <= j < order.len() && order[j] == c;
    if i >= k {
        lemma_blocked_rank_bound(jobs, order, k, rank, rank[p]);
        assert(rank[order[i]] > rank[p]);
    }
    if j < k {
        assert(is_edge(jobs, p, order[j]));
        assert(order.subrange(0, j).contains(p));
        let i2 = choose|i2: int| 0 <= i2 < j && order.subrange(0, j)[i2] == p;
        assert(order[i2] == p);
    } else {
        assert(i < j);
    }
}

} // verus!
