use vstd::prelude::*;

verus! {

/// A stored job definition, as the scheduling core reads it.
#[derive(Clone, Debug)]
pub struct CronJob {
    pub cron_job_id: i32,
    /// The owning group's identifier, as the 128-bit value of its UUID.
    pub group_id: u128,
    pub cron_job_name: String,
    /// Schedule time, in milliseconds since the Unix epoch (UTC).
    pub timings: i64,
    /// Outgoing edges: the ids of the jobs downstream of this one.
    pub children: Option<Vec<i32>>,
    /// Locator of the job's build descriptor.
    pub s3_link: Option<String>,
}

/// A dependency of a job on a parent, with its threshold count (accepted,
/// not consulted when deciding eligibility).
#[derive(Clone, Copy, Debug, PartialEq, Eq, Structural)]
pub struct DependencyEntry {
    pub parent_id: i32,
    pub epoch: i32,
}

/// A stored dependency record: `cron_job_id` depends on `parent_id`.
#[derive(Clone, Copy, Debug, PartialEq, Eq, Structural)]
pub struct CronJobDependency {
    pub cron_job_id: i32,
    pub parent_id: i32,
    pub epoch: i32,
}

/// Request to create a job group.
#[derive(Clone, Debug)]
pub struct CreateGroupRequest {
    pub group_name: String,
}

/// The child ids of a job, empty where it lists none.
pub open spec fn children_of(job: CronJob) -> Seq<i32> {
    match job.children {
        Some(c) => c@,
        None => Seq::empty(),
    }
}

} // verus!
