use vstd::prelude::*;
use std::collections::HashMap;

verus! {

broadcast use vstd::std_specs::hash::group_hash_axioms;

/// Run state of one job within one run.
#[derive(Clone, Copy, Debug, PartialEq, Eq, Structural)]
pub enum Epoch {
    Pending,
    Running,
    Completed,
    Failed,
}

impl Epoch {
    /// A terminal state is never left within a run.
    pub open spec fn is_terminal(self) -> bool {
        self == Epoch::Completed || self == Epoch::Failed
    }

    /// The label under which the state is written to the status store.
    pub fn label(&self) -> (r: &'static str)
        ensures
            *self == Epoch::Pending ==> r@ == "pending"@,
            *self == Epoch::Running ==> r@ == "running"@,
            *self == Epoch::Completed ==> r@ == "completed"@,
            *self == Epoch::Failed ==> r@ == "failed"@,
    {
        match self {
            Epoch::Pending => "pending",
            Epoch::Running => "running",
            Epoch::Completed => "completed",
            Epoch::Failed => "failed",
        }
    }
}

/// The per-run table from job id to run state.
#[derive(Debug)]
pub struct EpochState {
    pub epochs: HashMap<i32, Epoch>,
}

impl View for EpochState {
    type V = Map<i32, Epoch>;

    open spec fn view(&self) -> Map<i32, Epoch> {
        self.epochs@
    }
}

impl EpochState {
    /// An empty table.
    pub fn new() -> (r: EpochState)
        ensures
            r@ == Map::<i32, Epoch>::empty(),
    {
        EpochState { epochs: HashMap::new() }
    }

    /// The state recorded for `id`, if any.
    pub fn get(&self, id: i32) -> (r: Option<Epoch>)
        ensures
            r == (if self@.contains_key(id) { Some(self@[id]) } else { None::<Epoch> }),
    {
        match self.epochs.get(&id) {
            Some(e) => Some(*e),
            None => None,
        }
    }

    /// Records `state` for `id`, replacing any earlier value.
    pub fn set(&mut self, id: i32, state: Epoch)
        ensures
            final(self)@ == old(self)@.insert(id, state),
    {
        self.epochs.insert(id, state);
    }

    /// Whether `id` is recorded as `Completed`.
    pub fn is_completed(&self, id: i32) -> (r: bool)
        ensures
            r == (self@.contains_key(id) && self@[id] == Epoch::Completed),
    {
        match self.epochs.get(&id) {
            Some(e) => *e == Epoch::Completed,
            None => false,
        }
    }

    /// Sets every id of `ids` to `Pending`; other entries are kept.
    pub fn initialize(&mut self, ids: &Vec<i32>)
        ensures
            final(self)@ == old(self)@.union_prefer_right(pending_for(ids@)),
    {
        let mut i: usize = 0;
        while i < ids.len()
            invariant
                i <= ids.len(),
                self@ == old(self)@.union_prefer_right(pending_for(ids@.subrange(0, i as int))),
            decreases ids.len() - i,
        {
            let ghost prev = self@;
            self.epochs.insert(ids[i], Epoch::Pending);
            assert(self@ == prev.insert(ids@[i as int], Epoch::Pending));
            let ghost next = ids@.subrange(0, i + 1);
            let ghost done = ids@.subrange(0, i as int);
            assert(next =~= done.push(ids@[i as int]));
            assert forall|k: i32| next.contains(k) <==> (done.contains(k) || k == ids@[i as int]) by {
                if k == ids@[i as int] {
                    assert(next[i as int] == k);
                }
                if done.contains(k) {
                    let j = choose|j: int| 0 <= j < done.len() && done[j] == k;
                    assert(next[j] == k);
                }
            }
            i = i + 1;
            assert(self@ =~= old(self)@.union_prefer_right(pending_for(ids@.subrange(0, i as int))));
        }
        assert(ids@.subrange(0, ids.len() as int) =~= ids@);
    }
}

/// The map that sends every id of `ids` to `Pending`.
pub open spec fn pending_for(ids: Seq<i32>) -> Map<i32, Epoch> {
    Map::new(|k: i32| ids.contains(k), |k: i32| Epoch::Pending)
}

} // verus!
