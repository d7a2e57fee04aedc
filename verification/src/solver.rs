//! The greedy solver and the makespan of a schedule.

use std::collections::HashMap;
use vstd::prelude::*;
use vstd::pervasive::unreached;
use crate::model::{Job, ScheduledOperation, lemma_schedule_view_injective, schedule_view};
use crate::plan::{
    fits, greedy_schedule, job_free_at, lemma_free_after_push, lemma_slot_at, machine_free_at,
    place, plan,
};

verus! {

broadcast use vstd::std_specs::hash::group_hash_axioms;

/// A job-shop instance bound for solving: the jobs in priority order and
/// the number of machines.
pub struct JsspSolver {
    pub jobs: Vec<Job>,
    pub num_machines: usize,
}

/// The time that an availability table holds for `key`; 0 for a key that it
/// does not hold.
spec fn free_time(table: Map<usize, u64>, key: usize) -> int {
    if table.contains_key(key) {
        table[key] as int
    } else {
        0
    }
}

/// Reads an availability table; a key that it does not hold counts as 0.
fn read_free_time(table: &HashMap<usize, u64>, key: usize) -> (t: u64)
    ensures
        t == free_time(table@, key),
{
    match table.get(&key) {
        Some(t) => *t,
        None => 0,
    }
}

/// The latest end time in `s`, and 0 for an empty schedule.
pub open spec fn latest_end(s: Seq<ScheduledOperation>) -> int
    decreases s.len(),
{
    if s.len() == 0 {
        0
    } else {
        let rest = latest_end(s.drop_last());
        if s.last().end_time >= rest {
            s.last().end_time as int
        } else {
            rest
        }
    }
}

/// The makespan is the maximum of the end times: no slot ends later, some
/// slot of a schedule that has one ends exactly then, and an empty schedule
/// has makespan 0.
pub proof fn lemma_latest_end_is_max(s: Seq<ScheduledOperation>)
    ensures
        forall|p: int| 0 <= p < s.len() ==> (#[trigger] s[p]).end_time <= latest_end(s),
        s.len() > 0 ==> exists|p: int| 0 <= p < s.len() && (#[trigger] s[p]).end_time == latest_end(s),
        s.len() == 0 ==> latest_end(s) == 0,
    decreases s.len(),
{
    if s.len() > 0 {
        let t = s.drop_last();
        lemma_latest_end_is_max(t);
        assert forall|p: int| 0 <= p < s.len() implies (#[trigger] s[p]).end_time <= latest_end(
            s,
        ) by {
            if p < t.len() {
                assert(t[p] == s[p]);
            }
        }
        if s.last().end_time >= latest_end(t) {
            assert(s[s.len() - 1].end_time == latest_end(s));
        } else {
            let p = choose|p: int| 0 <= p < t.len() && (#[trigger] t[p]).end_time == latest_end(t);
            assert(s[p] == t[p]);
            assert(s[p].end_time == latest_end(s));
        }
    }
}

/// Determinism: the greedy schedule is a function of the jobs, so two
/// schedules that solving returns for the same jobs are equal in every field.
pub proof fn lemma_solve_deterministic(
    jobs: Seq<Job>,
    first: Seq<ScheduledOperation>,
    second: Seq<ScheduledOperation>,
)
    requires
        schedule_view(first) == greedy_schedule(jobs),
        schedule_view(second) == greedy_schedule(jobs),
    ensures
        first == second,
{
    lemma_schedule_view_injective(first, second);
}

impl JsspSolver {
    /// Binds an instance. Nothing is checked here.
    pub fn new(jobs: Vec<Job>, num_machines: usize) -> (solver: Self)
        ensures
            solver.jobs == jobs,
            solver.num_machines == num_machines,
    {
        Self { jobs, num_machines }
    }

    /// Computes the greedy schedule, or `None` where one of its times would
    /// not fit in 64 bits.
    pub fn try_solve_greedy(&self) -> (outcome: Option<Vec<ScheduledOperation>>)
        ensures
            outcome is Some <==> fits(greedy_schedule(self.jobs@)),
            outcome matches Some(schedule) ==> schedule_view(schedule@) == greedy_schedule(
                self.jobs@,
            ),
    {
        let mut schedule: Vec<ScheduledOperation> = Vec::new();
        let mut machine_free: HashMap<usize, u64> = HashMap::new();
        let mut job_free: HashMap<usize, u64> = HashMap::new();

        let mut m: usize = 0;
        while m < self.num_machines
            invariant
                forall|key: usize| free_time(machine_free@, key) == 0,
            decreases self.num_machines - m,
        {
            let ghost earlier = machine_free@;
            machine_free.insert(m, 0);
            proof {
                assert forall|key: usize| free_time(machine_free@, key) == 0 by {
                    assert(free_time(earlier, key) == 0);
                }
            }
            m += 1;
        }
        let mut k: usize = 0;
        while k < self.jobs.len()
            invariant
                forall|key: usize| free_time(job_free@, key) == 0,
            decreases self.jobs.len() - k,
        {
            let ghost earlier = job_free@;
            job_free.insert(self.jobs[k].id, 0);
            proof {
                assert forall|key: usize| free_time(job_free@, key) == 0 by {
                    assert(free_time(earlier, key) == 0);
                }
            }
            k += 1;
        }

        let mut k: usize = 0;
        while k < self.jobs.len()
            invariant
                k <= self.jobs.len(),
                schedule_view(schedule@) == plan(self.jobs@, k as int, 0),
                forall|key: usize|
                    free_time(machine_free@, key) == machine_free_at(
                        plan(self.jobs@, k as int, 0),
                        key as int,
                    ),
                forall|key: usize|
                    free_time(job_free@, key) == job_free_at(
                        plan(self.jobs@, k as int, 0),
                        key as int,
                    ),
            decreases self.jobs.len() - k,
        {
            let job = &self.jobs[k];
            let mut i: usize = 0;
            while i < job.operations.len()
                invariant
                    k < self.jobs.len(),
                    *job == self.jobs@[k as int],
                    i <= job.operations.len(),
                    schedule_view(schedule@) == plan(self.jobs@, k as int, i as int),
                    forall|key: usize|
                        free_time(machine_free@, key) == machine_free_at(
                            plan(self.jobs@, k as int, i as int),
                            key as int,
                        ),
                    forall|key: usize|
                        free_time(job_free@, key) == job_free_at(
                            plan(self.jobs@, k as int, i as int),
                            key as int,
                        ),
                decreases job.operations.len() - i,
            {
                let op = job.operations[i];
                let machine_time = read_free_time(&machine_free, op.machine_id);
                let job_time = read_free_time(&job_free, job.id);
                let start_time = if machine_time >= job_time {
                    machine_time
                } else {
                    job_time
                };
                let ghost before = plan(self.jobs@, k as int, i as int);
                let ghost slot = place(before, job.id as int, i as int, op);
                proof {
                    lemma_slot_at(self.jobs@, k as int, i as int);
                    assert(slot.start == start_time);
                }
                match start_time.checked_add(op.duration) {
                    None => {
                        return None;
                    },
                    Some(end_time) => {
                        let placed = ScheduledOperation {
                            job_id: job.id,
                            operation_id: i,
                            machine_id: op.machine_id,
                            start_time,
                            end_time,
                            duration: op.duration,
                        };
                        let ghost machine_earlier = machine_free@;
                        let ghost job_earlier = job_free@;
                        schedule.push(placed);
                        machine_free.insert(op.machine_id, end_time);
                        job_free.insert(job.id, end_time);
                        proof {
                            assert(placed@ == slot);
                            assert(schedule_view(schedule@) =~= before.push(slot));
                            assert forall|key: usize|
                                free_time(machine_free@, key) == machine_free_at(
                                    before.push(slot),
                                    key as int,
                                ) && free_time(job_free@, key) == job_free_at(
                                    before.push(slot),
                                    key as int,
                                ) by {
                                lemma_free_after_push(before, slot, key as int, key as int);
                                assert(free_time(machine_earlier, key) == machine_free_at(
                                    before,
                                    key as int,
                                ));
                                assert(free_time(job_earlier, key) == job_free_at(
                                    before,
                                    key as int,
                                ));
                            }
                        }
                    },
                }
                i += 1;
            }
            k += 1;
        }
        proof {
            let all = greedy_schedule(self.jobs@);
            assert forall|p: int| 0 <= p < all.len() implies (#[trigger] all[p]).end
                <= u64::MAX by {
                assert(all[p] == schedule@[p]@);
            }
        }
        Some(schedule)
    }

    /// Computes the greedy schedule of an instance whose times fit in 64
    /// bits: the jobs are walked in the order given, the operations of each
    /// in their own order, and each starts as soon as its machine and its
    /// job are free.
    pub fn solve_greedy(&self) -> (schedule: Vec<ScheduledOperation>)
        requires
            fits(greedy_schedule(self.jobs@)),
        ensures
            schedule_view(schedule@) == greedy_schedule(self.jobs@),
    {
        match self.try_solve_greedy() {
            Some(schedule) => schedule,
            None => unreached(),
        }
    }

    /// The time at which the last operation of `schedule` ends; 0 for an
    /// empty schedule.
    pub fn calculate_makespan(&self, schedule: &[ScheduledOperation]) -> (makespan: u64)
        ensures
            makespan == latest_end(schedule@),
    {
        let mut makespan: u64 = 0;
        let mut p: usize = 0;
        while p < schedule.len()
            invariant
                p <= schedule.len(),
                makespan == latest_end(schedule@.take(p as int)),
            decreases schedule.len() - p,
        {
            proof {
                assert(schedule@.take(p + 1).drop_last() =~= schedule@.take(p as int));
            }
            if schedule[p].end_time >= makespan {
                makespan = schedule[p].end_time;
            }
            p += 1;
        }
        proof {
            assert(schedule@.take(p as int) =~= schedule@);
        }
        makespan
    }
}

} // verus!
