//! Random job-shop instances in which every job visits every machine once.

use rand::Rng;
use vstd::prelude::*;
use crate::model::{Job, Operation};

verus! {

/// The number of ticks in one unit of time.
pub const TICKS_PER_UNIT: u64 = 1000;

/// The least width of the range that durations are drawn from: a tenth of a
/// unit.
pub const MIN_SPREAD: u64 = 100;

/// The least duration that is drawn: `min_duration`, raised to one unit.
pub open spec fn effective_min(min_duration: u64) -> int {
    if min_duration >= TICKS_PER_UNIT {
        min_duration as int
    } else {
        TICKS_PER_UNIT as int
    }
}

/// The greatest duration that is drawn: `max_duration`, raised to a tenth of
/// a unit above the least one, or to the greatest time there is where that
/// lies beyond it.
pub open spec fn effective_max(min_duration: u64, max_duration: u64) -> int {
    let raised = effective_min(min_duration) + MIN_SPREAD;
    let floor = if raised > u64::MAX { u64::MAX as int } else { raised };
    if max_duration >= floor {
        max_duration as int
    } else {
        floor
    }
}

/// Normalises a range of durations: an inverted range or one that reaches
/// below one unit is mended, never refused.
pub fn duration_range(min_duration: u64, max_duration: u64) -> (range: (u64, u64))
    ensures
        range.0 == effective_min(min_duration),
        range.1 == effective_max(min_duration, max_duration),
        range.0 <= range.1,
{
    let low = if min_duration >= TICKS_PER_UNIT {
        min_duration
    } else {
        TICKS_PER_UNIT
    };
    let floor = low.saturating_add(MIN_SPREAD);
    let high = if max_duration >= floor {
        max_duration
    } else {
        floor
    };
    (low, high)
}

/// `s` with the items at `a` and `b` exchanged.
pub open spec fn exchanged(s: Seq<usize>, a: int, b: int) -> Seq<usize> {
    s.update(a, s[b]).update(b, s[a])
}

/// The machines `0..n` in their natural order.
pub open spec fn natural_order(n: nat) -> Seq<usize> {
    Seq::new(n, |m: int| m as usize)
}

/// The order of `n` machines after the first `steps` exchanges of a shuffle
/// from the back: exchange number `t` (counted from 0) swaps the item at
/// `n - 1 - t` with the one at `picks[t]`.
pub open spec fn shuffled(n: nat, picks: Seq<usize>, steps: nat) -> Seq<usize>
    decreases steps,
{
    if steps == 0 {
        natural_order(n)
    } else {
        exchanged(
            shuffled(n, picks, (steps - 1) as nat),
            n - steps,
            picks[steps - 1] as int,
        )
    }
}

/// Whether `picks` can steer a shuffle of `n` machines: one pick for each
/// position from the back down to position 1, none beyond its position.
pub open spec fn steers(n: nat, picks: Seq<usize>) -> bool {
    &&& picks.len() + 1 == n || (n == 0 && picks.len() == 0)
    &&& forall|t: int| 0 <= t < picks.len() ==> (#[trigger] picks[t]) <= n - 1 - t
}

/// Whether machine `m` occurs in `s`.
pub open spec fn visits(s: Seq<usize>, m: int) -> bool {
    exists|i: int| 0 <= i < s.len() && (#[trigger] s[i]) == m
}

/// Whether `s` holds each of the machines `0..n` exactly once: it has `n`
/// items, all of them machines below `n`, no two of them equal, and every
/// machine below `n` among them.
pub open spec fn is_permutation(s: Seq<usize>, n: nat) -> bool {
    &&& s.len() == n
    &&& forall|i: int| 0 <= i < s.len() ==> (#[trigger] s[i]) < n
    &&& forall|i: int, j: int| 0 <= i < j < s.len() ==> (#[trigger] s[i]) != (#[trigger] s[j])
    &&& forall|m: int| 0 <= m < n ==> #[trigger] visits(s, m)
}

/// The natural order holds each machine exactly once.
proof fn lemma_natural_order_is_permutation(n: nat)
    requires
        n <= usize::MAX,
    ensures
        is_permutation(natural_order(n), n),
{
    let s = natural_order(n);
    assert forall|m: int| 0 <= m < n implies #[trigger] visits(s, m) by {
        assert(s[m] == m);
    }
}

/// Exchanging two items keeps each machine exactly once.
proof fn lemma_exchange_keeps_permutation(s: Seq<usize>, n: nat, a: int, b: int)
    requires
        is_permutation(s, n),
        0 <= a < n,
        0 <= b < n,
    ensures
        is_permutation(exchanged(s, a, b), n),
{
    let t = exchanged(s, a, b);
    let sigma = |i: int| if i == a { b } else if i == b { a } else { i };
    assert forall|i: int| 0 <= i < n implies #[trigger] t[i] == s[sigma(i)] by {}
    assert forall|i: int| 0 <= i < t.len() implies (#[trigger] t[i]) < n by {
        assert(t[i] == s[sigma(i)]);
    }
    assert forall|i: int, j: int| 0 <= i < j < t.len() implies (#[trigger] t[i]) != (
    #[trigger] t[j]) by {
        assert(t[i] == s[sigma(i)]);
        assert(t[j] == s[sigma(j)]);
        assert(sigma(i) != sigma(j));
        if sigma(i) < sigma(j) {
            assert(s[sigma(i)] != s[sigma(j)]);
        } else {
            assert(s[sigma(j)] != s[sigma(i)]);
        }
    }
    assert forall|m: int| 0 <= m < n implies #[trigger] visits(t, m) by {
        assert(visits(s, m));
        let i = choose|i: int| 0 <= i < s.len() && (#[trigger] s[i]) == m;
        assert(t[sigma(i)] == s[i]);
    }
}

/// Every stage of a steered shuffle holds each machine exactly once.
pub proof fn lemma_shuffled_is_permutation(n: nat, picks: Seq<usize>, steps: nat)
    requires
        n <= usize::MAX,
        steers(n, picks),
        steps <= picks.len(),
    ensures
        is_permutation(shuffled(n, picks, steps), n),
    decreases steps,
{
    if steps == 0 {
        lemma_natural_order_is_permutation(n);
    } else {
        lemma_shuffled_is_permutation(n, picks, (steps - 1) as nat);
        assert(picks[steps - 1] <= n - 1 - (steps - 1));
        lemma_exchange_keeps_permutation(
            shuffled(n, picks, (steps - 1) as nat),
            n,
            n - steps,
            picks[steps - 1] as int,
        );
    }
}

/// Shuffles the machines `0..num_machines` from the back, taking the partner
/// of each exchange from `picks`.
pub fn shuffle_machines(num_machines: usize, picks: &Vec<usize>) -> (order: Vec<usize>)
    requires
        steers(num_machines as nat, picks@),
    ensures
        order@ == shuffled(num_machines as nat, picks@, picks@.len()),
        is_permutation(order@, num_machines as nat),
{
    let mut order: Vec<usize> = Vec::new();
    let mut m: usize = 0;
    while m < num_machines
        invariant
            m <= num_machines,
            order@ == natural_order(m as nat),
        decreases num_machines - m,
    {
        order.push(m);
        m += 1;
        proof {
            assert(order@ =~= natural_order(m as nat));
        }
    }
    let mut t: usize = 0;
    while t < picks.len()
        invariant
            t <= picks.len(),
            steers(num_machines as nat, picks@),
            order@ == shuffled(num_machines as nat, picks@, t as nat),
            order@.len() == num_machines,
        decreases picks.len() - t,
    {
        let i: usize = num_machines - 1 - t;
        let j: usize = picks[t];
        let at_i: usize = order[i];
        let at_j: usize = order[j];
        order.set(i, at_j);
        order.set(j, at_i);
        t += 1;
    }
    proof {
        lemma_shuffled_is_permutation(num_machines as nat, picks@, picks@.len());
    }
    order
}

/// Draws one number from the inclusive range `low..=high` by
/// `rand::Rng::gen_range`, on the generator that `rand::thread_rng` hands to
/// this thread. Trusted: the draw lies in the range. An empty range is
/// left out, since `gen_range` panics on it.
#[verifier::external_body]
fn random_in_range(low: u64, high: u64) -> (drawn: u64)
    requires
        low <= high,
    ensures
        low <= drawn <= high,
{
    rand::thread_rng().gen_range(low..=high)
}

/// The machines of a job's operations, in the job's order.
pub open spec fn machine_order(operations: Seq<Operation>) -> Seq<usize> {
    Seq::new(operations.len(), |i: int| operations[i].machine_id)
}

/// Builds the job `job_id` from what was drawn for it: its operations visit
/// the machines in the order that `picks` shuffles them into, and operation
/// `i` lasts `durations[i]`. The job has as many operations as there are
/// durations.
pub fn job_from_draws(job_id: usize, picks: &Vec<usize>, durations: &Vec<u64>) -> (job: Job)
    requires
        steers(durations@.len(), picks@),
    ensures
        job.id == job_id,
        job.operations@.len() == durations@.len(),
        forall|i: int|
            0 <= i < durations@.len() ==> #[trigger] job.operations@[i] == (Operation {
                job_id,
                operation_id: i as usize,
                machine_id: shuffled(durations@.len(), picks@, picks@.len())[i],
                duration: durations@[i],
            }),
        is_permutation(machine_order(job.operations@), durations@.len()),
{
    let machines = shuffle_machines(durations.len(), picks);
    let mut operations: Vec<Operation> = Vec::new();
    let mut i: usize = 0;
    while i < machines.len()
        invariant
            i <= machines.len(),
            machines@.len() == durations@.len(),
            operations@.len() == i,
            forall|h: int|
                0 <= h < i ==> #[trigger] operations@[h] == (Operation {
                    job_id,
                    operation_id: h as usize,
                    machine_id: machines@[h],
                    duration: durations@[h],
                }),
        decreases machines.len() - i,
    {
        operations.push(
            Operation { job_id, operation_id: i, machine_id: machines[i], duration: durations[i] },
        );
        i += 1;
    }
    proof {
        assert(machine_order(operations@) =~= machines@);
    }
    Job { id: job_id, operations }
}

/// Whether `job` is a generated job number `k` for `num_machines` machines
/// and the given range of durations: it carries `k` as its identifier, visits
/// every machine exactly once, numbers its operations by their position, and
/// every duration lies in the normalised range.
pub open spec fn is_generated_job(
    job: Job,
    k: int,
    num_machines: usize,
    min_duration: u64,
    max_duration: u64,
) -> bool {
    &&& job.id == k
    &&& job.operations@.len() == num_machines
    &&& is_permutation(machine_order(job.operations@), num_machines as nat)
    &&& forall|i: int|
        0 <= i < job.operations@.len() ==> {
            let op = #[trigger] job.operations@[i];
            &&& op.job_id == k
            &&& op.operation_id == i
            &&& effective_min(min_duration) <= op.duration <= effective_max(
                min_duration,
                max_duration,
            )
        }
}

/// Whether `jobs` is a generated instance of `num_jobs` jobs.
pub open spec fn is_generated(
    jobs: Seq<Job>,
    num_jobs: usize,
    num_machines: usize,
    min_duration: u64,
    max_duration: u64,
) -> bool {
    &&& jobs.len() == num_jobs
    &&& forall|k: int|
        0 <= k < jobs.len() ==> is_generated_job(
            #[trigger] jobs[k],
            k,
            num_machines,
            min_duration,
            max_duration,
        )
}

/// Draws the picks that steer one shuffle of `num_machines` machines: for
/// each position from the back down to 1, a position at or before it.
fn draw_picks(num_machines: usize) -> (picks: Vec<usize>)
    ensures
        steers(num_machines as nat, picks@),
{
    let mut picks: Vec<usize> = Vec::new();
    if num_machines == 0 {
        return picks;
    }
    let mut t: usize = 0;
    while t < num_machines - 1
        invariant
            num_machines >= 1,
            t <= num_machines - 1,
            picks@.len() == t,
            forall|u: int| 0 <= u < t ==> (#[trigger] picks@[u]) <= num_machines - 1 - u,
        decreases num_machines - 1 - t,
    {
        let i: usize = num_machines - 1 - t;
        let j: u64 = random_in_range(0, i as u64);
        picks.push(j as usize);
        t += 1;
    }
    picks
}

/// Draws `count` durations from `low..=high`.
fn draw_durations(count: usize, low: u64, high: u64) -> (durations: Vec<u64>)
    requires
        low <= high,
    ensures
        durations@.len() == count,
        forall|i: int| 0 <= i < count ==> low <= (#[trigger] durations@[i]) <= high,
{
    let mut durations: Vec<u64> = Vec::new();
    let mut i: usize = 0;
    while i < count
        invariant
            i <= count,
            low <= high,
            durations@.len() == i,
            forall|h: int| 0 <= h < i ==> low <= (#[trigger] durations@[h]) <= high,
        decreases count - i,
    {
        let drawn = random_in_range(low, high);
        durations.push(drawn);
        i += 1;
    }
    durations
}

/// Generates a random instance: `num_jobs` jobs, numbered from 0, each of
/// which visits each of the `num_machines` machines exactly once in a
/// shuffled order, with durations drawn from the normalised range. Both
/// bounds are in ticks. No input is refused.
pub fn generate_random_instance(
    num_jobs: usize,
    num_machines: usize,
    min_duration: u64,
    max_duration: u64,
) -> (jobs: Vec<Job>)
    ensures
        is_generated(jobs@, num_jobs, num_machines, min_duration, max_duration),
{
    let (low, high) = duration_range(min_duration, max_duration);
    let mut jobs: Vec<Job> = Vec::new();
    let mut job_id: usize = 0;
    while job_id < num_jobs
        invariant
            job_id <= num_jobs,
            low == effective_min(min_duration),
            high == effective_max(min_duration, max_duration),
            low <= high,
            is_generated(jobs@, job_id, num_machines, min_duration, max_duration),
        decreases num_jobs - job_id,
    {
        let picks = draw_picks(num_machines);
        let durations = draw_durations(num_machines, low, high);
        let job = job_from_draws(job_id, &picks, &durations);
        let ghost earlier = jobs@;
        jobs.push(job);
        proof {
            assert forall|k: int| 0 <= k < jobs@.len() implies is_generated_job(
                #[trigger] jobs@[k],
                k,
                num_machines,
                min_duration,
                max_duration,
            ) by {
                if k < job_id {
                    assert(jobs@[k] == earlier[k]);
                }
            }
        }
        job_id += 1;
    }
    jobs
}

} // verus!
