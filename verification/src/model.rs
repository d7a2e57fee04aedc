//! The data of a job-shop instance and of a schedule.

use vstd::prelude::*;

verus! {

/// One unit of work: it occupies `machine_id` for `duration` ticks.
///
/// `job_id` and `operation_id` say where the operation belongs; the solver
/// goes by the job that holds the operation and by its position there.
#[derive(Debug, Clone, Copy, PartialEq, Eq)]
pub struct Operation {
    pub job_id: usize,
    pub operation_id: usize,
    pub machine_id: usize,
    pub duration: u64,
}

/// A chain of operations that run one after the other, in the order held.
#[derive(Debug, Clone, PartialEq, Eq)]
pub struct Job {
    pub id: usize,
    pub operations: Vec<Operation>,
}

/// Every operation of `job` runs on one of the machines `0..num_machines`.
pub open spec fn job_machines_in_range(job: Job, num_machines: usize) -> bool {
    forall|i: int|
        0 <= i < job.operations@.len() ==> (#[trigger] job.operations@[i]).machine_id
            < num_machines
}

/// Every operation of `job` takes some time.
pub open spec fn job_durations_positive(job: Job) -> bool {
    forall|i: int| 0 <= i < job.operations@.len() ==> (#[trigger] job.operations@[i]).duration > 0
}

/// Every operation of every job runs on one of the machines.
pub open spec fn machines_in_range(jobs: Seq<Job>, num_machines: usize) -> bool {
    forall|k: int| 0 <= k < jobs.len() ==> job_machines_in_range(#[trigger] jobs[k], num_machines)
}

/// Every operation of every job takes some time.
pub open spec fn durations_positive(jobs: Seq<Job>) -> bool {
    forall|k: int| 0 <= k < jobs.len() ==> job_durations_positive(#[trigger] jobs[k])
}

/// No two jobs carry the same identifier.
pub open spec fn job_ids_distinct(jobs: Seq<Job>) -> bool {
    forall|a: int, b: int|
        0 <= a < b < jobs.len() ==> (#[trigger] jobs[a]).id != (#[trigger] jobs[b]).id
}

/// The invariants of an instance: it has a machine and a job, every
/// operation runs on one of its machines for some time, and the jobs'
/// identifiers differ.
pub open spec fn well_formed(jobs: Seq<Job>, num_machines: usize) -> bool {
    &&& num_machines >= 1
    &&& jobs.len() >= 1
    &&& machines_in_range(jobs, num_machines)
    &&& durations_positive(jobs)
    &&& job_ids_distinct(jobs)
}

/// An operation placed in time: it runs on `machine_id` from `start_time`
/// to `end_time`, both in ticks.
#[derive(Debug, Clone, Copy, PartialEq, Eq)]
pub struct ScheduledOperation {
    pub job_id: usize,
    pub operation_id: usize,
    pub machine_id: usize,
    pub start_time: u64,
    pub end_time: u64,
    pub duration: u64,
}

/// The mathematical model of a placed operation: the same six fields over
/// unbounded integers.
pub struct Slot {
    pub job_id: int,
    pub operation_id: int,
    pub machine_id: int,
    pub start: int,
    pub end: int,
    pub duration: int,
}

impl View for ScheduledOperation {
    type V = Slot;

    open spec fn view(&self) -> Slot {
        Slot {
            job_id: self.job_id as int,
            operation_id: self.operation_id as int,
            machine_id: self.machine_id as int,
            start: self.start_time as int,
            end: self.end_time as int,
            duration: self.duration as int,
        }
    }
}

/// The model of a whole schedule, slot by slot.
pub open spec fn schedule_view(s: Seq<ScheduledOperation>) -> Seq<Slot> {
    Seq::new(s.len(), |p: int| s[p]@)
}

/// Two schedules with the same model are the same schedule.
pub proof fn lemma_schedule_view_injective(a: Seq<ScheduledOperation>, b: Seq<ScheduledOperation>)
    requires
        schedule_view(a) == schedule_view(b),
    ensures
        a == b,
{
    assert(a.len() == schedule_view(a).len());
    assert(b.len() == schedule_view(b).len());
    assert forall|p: int| 0 <= p < a.len() implies a[p] == b[p] by {
        assert(schedule_view(a)[p] == a[p]@);
        assert(schedule_view(b)[p] == b[p]@);
    }
    assert(a =~= b);
}

} // verus!
