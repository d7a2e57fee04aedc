//! A check of an instance's invariants.

use vstd::prelude::*;
use crate::generator::{effective_min, is_generated, machine_order};
use crate::model::{
    durations_positive, job_durations_positive, job_ids_distinct, job_machines_in_range,
    machines_in_range, well_formed, Job,
};
use crate::solver::JsspSolver;

verus! {

/// Why an instance is not well formed.
#[derive(Debug, Clone, Copy, PartialEq, Eq)]
pub enum InstanceError {
    /// There is no machine.
    NoMachines,
    /// There is no job.
    NoJobs,
    /// Some operation names a machine at or beyond the number of machines.
    MachineOutOfRange,
    /// Some operation takes no time.
    ZeroDuration,
    /// Two jobs carry the same identifier.
    DuplicateJobId,
}

/// The first invariant that an instance breaks, in the order in which
/// `well_formed` lists them; `None` for a well-formed instance.
pub open spec fn first_fault(jobs: Seq<Job>, num_machines: usize) -> Option<InstanceError> {
    if num_machines == 0 {
        Some(InstanceError::NoMachines)
    } else if jobs.len() == 0 {
        Some(InstanceError::NoJobs)
    } else if !machines_in_range(jobs, num_machines) {
        Some(InstanceError::MachineOutOfRange)
    } else if !durations_positive(jobs) {
        Some(InstanceError::ZeroDuration)
    } else if !job_ids_distinct(jobs) {
        Some(InstanceError::DuplicateJobId)
    } else {
        None
    }
}

/// A generated instance with at least one job and one machine is well
/// formed.
pub proof fn lemma_generated_is_well_formed(
    jobs: Seq<Job>,
    num_jobs: usize,
    num_machines: usize,
    min_duration: u64,
    max_duration: u64,
)
    requires
        is_generated(jobs, num_jobs, num_machines, min_duration, max_duration),
        num_jobs >= 1,
        num_machines >= 1,
    ensures
        well_formed(jobs, num_machines),
{
    assert forall|k: int| 0 <= k < jobs.len() implies job_machines_in_range(
        #[trigger] jobs[k],
        num_machines,
    ) && job_durations_positive(jobs[k]) by {
        let ops = jobs[k].operations@;
        assert forall|i: int| 0 <= i < ops.len() implies (#[trigger] ops[i]).machine_id
            < num_machines && ops[i].duration > 0 by {
            assert(machine_order(ops)[i] == ops[i].machine_id);
            assert(effective_min(min_duration) <= ops[i].duration);
        }
    }
}

/// Whether every operation runs on one of the machines.
fn check_machines(jobs: &Vec<Job>, num_machines: usize) -> (ok: bool)
    ensures
        ok == machines_in_range(jobs@, num_machines),
{
    let mut k: usize = 0;
    while k < jobs.len()
        invariant
            k <= jobs.len(),
            forall|h: int| 0 <= h < k ==> job_machines_in_range(#[trigger] jobs@[h], num_machines),
        decreases jobs.len() - k,
    {
        let job = &jobs[k];
        let mut i: usize = 0;
        while i < job.operations.len()
            invariant
                k < jobs.len(),
                *job == jobs@[k as int],
                i <= job.operations.len(),
                forall|h: int| 0 <= h < i ==> (#[trigger] job.operations@[h]).machine_id < num_machines,
            decreases job.operations.len() - i,
        {
            if job.operations[i].machine_id >= num_machines {
                assert(!job_machines_in_range(jobs@[k as int], num_machines));
                return false;
            }
            i += 1;
        }
        k += 1;
    }
    true
}

/// Whether every operation takes some time.
fn check_durations(jobs: &Vec<Job>) -> (ok: bool)
    ensures
        ok == durations_positive(jobs@),
{
    let mut k: usize = 0;
    while k < jobs.len()
        invariant
            k <= jobs.len(),
            forall|h: int| 0 <= h < k ==> job_durations_positive(#[trigger] jobs@[h]),
        decreases jobs.len() - k,
    {
        let job = &jobs[k];
        let mut i: usize = 0;
        while i < job.operations.len()
            invariant
                k < jobs.len(),
                *job == jobs@[k as int],
                i <= job.operations.len(),
                forall|h: int| 0 <= h < i ==> (#[trigger] job.operations@[h]).duration > 0,
            decreases job.operations.len() - i,
        {
            if job.operations[i].duration == 0 {
                assert(!job_durations_positive(jobs@[k as int]));
                return false;
            }
            i += 1;
        }
        k += 1;
    }
    true
}

/// Whether the jobs' identifiers differ.
fn check_job_ids(jobs: &Vec<Job>) -> (ok: bool)
    ensures
        ok == job_ids_distinct(jobs@),
{
    let mut b: usize = 0;
    while b < jobs.len()
        invariant
            b <= jobs.len(),
            forall|g: int, h: int|
                0 <= g < h < b ==> (#[trigger] jobs@[g]).id != (#[trigger] jobs@[h]).id,
        decreases jobs.len() - b,
    {
        let mut a: usize = 0;
        while a < b
            invariant
                a <= b < jobs.len(),
                forall|g: int| 0 <= g < a ==> (#[trigger] jobs@[g]).id != jobs@[b as int].id,
            decreases b - a,
        {
            if jobs[a].id == jobs[b].id {
                return false;
            }
            a += 1;
        }
        b += 1;
    }
    true
}

impl JsspSolver {
    /// Checks the invariants of the bound instance and names the first one
    /// that is broken.
    pub fn validate(&self) -> (outcome: Result<(), InstanceError>)
        ensures
            outcome == match first_fault(self.jobs@, self.num_machines) {
                Some(fault) => Err::<(), InstanceError>(fault),
                None => Ok(()),
            },
            outcome is Ok <==> well_formed(self.jobs@, self.num_machines),
    {
        if self.num_machines == 0 {
            Err(InstanceError::NoMachines)
        } else if self.jobs.len() == 0 {
            Err(InstanceError::NoJobs)
        } else if !check_machines(&self.jobs, self.num_machines) {
            Err(InstanceError::MachineOutOfRange)
        } else if !check_durations(&self.jobs) {
            Err(InstanceError::ZeroDuration)
        } else if !check_job_ids(&self.jobs) {
            Err(InstanceError::DuplicateJobId)
        } else {
            Ok(())
        }
    }
}

} // verus!
