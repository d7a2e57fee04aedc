//! What the greedy rule computes, stated over unbounded integers, and the
//! properties every such plan has.

use vstd::prelude::*;
use crate::model::{job_ids_distinct, Job, Operation, Slot};

verus! {

/// When machine `m` is free after the slots of `s`: the end of the last
/// slot on it, or 0 where it has none.
pub open spec fn machine_free_at(s: Seq<Slot>, m: int) -> int
    decreases s.len(),
{
    if s.len() == 0 {
        0
    } else if s.last().machine_id == m {
        s.last().end
    } else {
        machine_free_at(s.drop_last(), m)
    }
}

/// When the job with identifier `j` is free after the slots of `s`: the end
/// of its last slot, or 0 where it has none.
pub open spec fn job_free_at(s: Seq<Slot>, j: int) -> int
    decreases s.len(),
{
    if s.len() == 0 {
        0
    } else if s.last().job_id == j {
        s.last().end
    } else {
        job_free_at(s.drop_last(), j)
    }
}

/// The larger of two times.
pub open spec fn later(a: int, b: int) -> int {
    if a >= b { a } else { b }
}

/// The slot that the greedy rule gives to `op`, the operation at position
/// `index` of the job `job_id`, after the slots of `s`: it starts as soon as
/// both its machine and its job are free.
pub open spec fn place(s: Seq<Slot>, job_id: int, index: int, op: Operation) -> Slot {
    let start = later(machine_free_at(s, op.machine_id as int), job_free_at(s, job_id));
    Slot {
        job_id,
        operation_id: index,
        machine_id: op.machine_id as int,
        start,
        end: start + op.duration,
        duration: op.duration as int,
    }
}

/// The schedule after the first `k` jobs are placed in full and the first
/// `i` operations of job `k` after them.
pub open spec fn plan(jobs: Seq<Job>, k: int, i: int) -> Seq<Slot>
    recommends
        0 <= k <= jobs.len(),
        i == 0 || (k < jobs.len() && 0 <= i <= jobs[k].operations@.len()),
    decreases k, i,
{
    if i > 0 {
        let before = plan(jobs, k, i - 1);
        before.push(place(before, jobs[k].id as int, i - 1, jobs[k].operations@[i - 1]))
    } else if k > 0 {
        plan(jobs, k - 1, jobs[k - 1].operations@.len() as int)
    } else {
        Seq::empty()
    }
}

/// The greedy schedule of an instance: jobs in the order given, the
/// operations of each in their own order.
pub open spec fn greedy_schedule(jobs: Seq<Job>) -> Seq<Slot> {
    plan(jobs, jobs.len() as int, 0)
}

/// The number of operations in the first `k` jobs, which is the position of
/// job `k`'s first slot in the schedule.
pub open spec fn offset(jobs: Seq<Job>, k: int) -> int
    decreases k,
{
    if k <= 0 {
        0
    } else {
        offset(jobs, k - 1) + jobs[k - 1].operations@.len()
    }
}

/// The position in the schedule of operation `i` of job `k`.
pub open spec fn position(jobs: Seq<Job>, k: int, i: int) -> int {
    offset(jobs, k) + i
}

/// Whether `(k, i)` names a stage of the walk over `jobs`.
pub open spec fn stage(jobs: Seq<Job>, k: int, i: int) -> bool {
    &&& 0 <= k <= jobs.len()
    &&& 0 <= i
    &&& i == 0 || (k < jobs.len() && i <= jobs[k].operations@.len())
}

/// Whether `(k, i)` names an operation of `jobs`.
pub open spec fn has_operation(jobs: Seq<Job>, k: int, i: int) -> bool {
    0 <= k < jobs.len() && 0 <= i < jobs[k].operations@.len()
}

/// Every time fits the machine's 64-bit counter.
pub open spec fn fits(s: Seq<Slot>) -> bool {
    forall|p: int| 0 <= p < s.len() ==> (#[trigger] s[p]).end <= u64::MAX
}

/// Appending a slot moves the free time of its machine and of its job to
/// its end and leaves every other free time as it was.
pub proof fn lemma_free_after_push(s: Seq<Slot>, x: Slot, m: int, j: int)
    ensures
        machine_free_at(s.push(x), m) == if x.machine_id == m { x.end } else { machine_free_at(s, m) },
        job_free_at(s.push(x), j) == if x.job_id == j { x.end } else { job_free_at(s, j) },
{
    assert(s.push(x).last() == x);
    assert(s.push(x).drop_last() =~= s);
}

/// The plan of a stage holds one slot for each operation walked by then.
pub proof fn lemma_plan_len(jobs: Seq<Job>, k: int, i: int)
    requires
        stage(jobs, k, i),
    ensures
        plan(jobs, k, i).len() == position(jobs, k, i),
        offset(jobs, k) >= 0,
    decreases k, i,
{
    if i > 0 {
        lemma_plan_len(jobs, k, i - 1);
    } else if k > 0 {
        lemma_plan_len(jobs, k - 1, jobs[k - 1].operations@.len() as int);
    }
}

/// Whether stage `(k1, i1)` comes no later than stage `(k2, i2)`.
pub open spec fn no_later(k1: int, i1: int, k2: int, i2: int) -> bool {
    k1 < k2 || (k1 == k2 && i1 <= i2)
}

/// The walk only appends: an earlier stage is a prefix of a later one.
pub proof fn lemma_plan_prefix(jobs: Seq<Job>, k1: int, i1: int, k2: int, i2: int)
    requires
        stage(jobs, k1, i1),
        stage(jobs, k2, i2),
        no_later(k1, i1, k2, i2),
    ensures
        position(jobs, k1, i1) <= position(jobs, k2, i2),
        plan(jobs, k1, i1) == plan(jobs, k2, i2).take(position(jobs, k1, i1)),
    decreases k2, i2,
{
    lemma_plan_len(jobs, k1, i1);
    lemma_plan_len(jobs, k2, i2);
    if k1 == k2 && i1 == i2 {
        assert(plan(jobs, k1, i1) =~= plan(jobs, k2, i2).take(position(jobs, k1, i1)));
    } else if i2 > 0 {
        lemma_plan_prefix(jobs, k1, i1, k2, i2 - 1);
        lemma_plan_len(jobs, k2, i2 - 1);
        assert(plan(jobs, k1, i1) =~= plan(jobs, k2, i2).take(position(jobs, k1, i1)));
    } else {
        let n = jobs[k2 - 1].operations@.len() as int;
        lemma_plan_prefix(jobs, k1, i1, k2 - 1, n);
    }
}

/// The slot of operation `i` of job `k` in the greedy schedule is the one
/// that `place` gives it after the stage `(k, i)`.
pub proof fn lemma_slot_at(jobs: Seq<Job>, k: int, i: int)
    requires
        has_operation(jobs, k, i),
    ensures
        0 <= position(jobs, k, i) < greedy_schedule(jobs).len(),
        greedy_schedule(jobs)[position(jobs, k, i)] == place(
            plan(jobs, k, i),
            jobs[k].id as int,
            i,
            jobs[k].operations@[i],
        ),
        plan(jobs, k, i) == greedy_schedule(jobs).take(position(jobs, k, i)),
{
    let all = greedy_schedule(jobs);
    lemma_plan_len(jobs, k, i);
    lemma_plan_len(jobs, k, i + 1);
    lemma_plan_prefix(jobs, k, i + 1, jobs.len() as int, 0);
    lemma_plan_prefix(jobs, k, i, jobs.len() as int, 0);
    lemma_plan_len(jobs, jobs.len() as int, 0);
    let p = position(jobs, k, i);
    assert(plan(jobs, k, i + 1)[p] == all.take(p + 1)[p]);
}

/// What placing by availability maintains: no slot ends before it starts,
/// each machine and each job is free no earlier than any of its slots ends,
/// and of two slots on one machine, or of one job, the later starts no
/// earlier than the earlier ends.
pub open spec fn orderly(s: Seq<Slot>) -> bool {
    &&& forall|p: int| 0 <= p < s.len() ==> 0 <= (#[trigger] s[p]).start <= s[p].end
    &&& forall|p: int|
        0 <= p < s.len() ==> (#[trigger] s[p]).end <= machine_free_at(s, s[p].machine_id)
    &&& forall|p: int| 0 <= p < s.len() ==> (#[trigger] s[p]).end <= job_free_at(s, s[p].job_id)
    &&& forall|p: int, q: int|
        0 <= p < q < s.len() && (#[trigger] s[p]).machine_id == (#[trigger] s[q]).machine_id
            ==> s[p].end <= s[q].start
    &&& forall|p: int, q: int|
        0 <= p < q < s.len() && (#[trigger] s[p]).job_id == (#[trigger] s[q]).job_id ==> s[p].end
            <= s[q].start
}

/// Free times are not negative where no end time is.
proof fn lemma_free_nonnegative(s: Seq<Slot>, m: int, j: int)
    requires
        forall|p: int| 0 <= p < s.len() ==> 0 <= (#[trigger] s[p]).end,
    ensures
        machine_free_at(s, m) >= 0,
        job_free_at(s, j) >= 0,
    decreases s.len(),
{
    if s.len() > 0 {
        let t = s.drop_last();
        assert(s.last() == s[s.len() - 1]);
        assert forall|p: int| 0 <= p < t.len() implies 0 <= (#[trigger] t[p]).end by {
            assert(t[p] == s[p]);
        }
        lemma_free_nonnegative(t, m, j);
    }
}

/// Placing one more operation keeps a schedule orderly.
pub proof fn lemma_orderly_place(s: Seq<Slot>, job_id: int, index: int, op: Operation)
    requires
        orderly(s),
    ensures
        orderly(s.push(place(s, job_id, index, op))),
{
    let x = place(s, job_id, index, op);
    let t = s.push(x);
    lemma_free_nonnegative(s, op.machine_id as int, job_id);
    assert forall|p: int| 0 <= p < t.len() implies 0 <= (#[trigger] t[p]).start <= t[p].end
        && t[p].end <= machine_free_at(t, t[p].machine_id)
        && t[p].end <= job_free_at(t, t[p].job_id) by {
        lemma_free_after_push(s, x, t[p].machine_id, t[p].job_id);
        if p < s.len() {
            assert(t[p] == s[p]);
        }
    }
    assert forall|p: int, q: int|
        0 <= p < q < t.len() && (#[trigger] t[p]).machine_id == (#[trigger] t[q]).machine_id
            implies t[p].end <= t[q].start by {
        assert(t[p] == s[p]);
        if q < s.len() {
            assert(t[q] == s[q]);
        }
    }
    assert forall|p: int, q: int|
        0 <= p < q < t.len() && (#[trigger] t[p]).job_id == (#[trigger] t[q]).job_id
            implies t[p].end <= t[q].start by {
        assert(t[p] == s[p]);
        if q < s.len() {
            assert(t[q] == s[q]);
        }
    }
}

/// Every stage of the greedy walk is orderly.
pub proof fn lemma_plan_orderly(jobs: Seq<Job>, k: int, i: int)
    requires
        stage(jobs, k, i),
    ensures
        orderly(plan(jobs, k, i)),
    decreases k, i,
{
    if i > 0 {
        lemma_plan_orderly(jobs, k, i - 1);
        lemma_orderly_place(
            plan(jobs, k, i - 1),
            jobs[k].id as int,
            i - 1,
            jobs[k].operations@[i - 1],
        );
    } else if k > 0 {
        lemma_plan_orderly(jobs, k - 1, jobs[k - 1].operations@.len() as int);
    }
}

/// Precedence within a job: in the greedy schedule of any instance, each
/// operation of a job stands right before the job's next one, carries the
/// job's identifier and its own index, and ends no later than the next one
/// starts.
pub proof fn lemma_precedence(jobs: Seq<Job>, k: int, i: int)
    requires
        has_operation(jobs, k, i),
        has_operation(jobs, k, i + 1),
    ensures
        ({
            let s = greedy_schedule(jobs);
            let p = position(jobs, k, i);
            &&& 0 <= p && p + 1 < s.len()
            &&& s[p].job_id == jobs[k].id && s[p].operation_id == i
            &&& s[p + 1].job_id == jobs[k].id && s[p + 1].operation_id == i + 1
            &&& s[p].end <= s[p + 1].start
        }),
{
    lemma_slot_at(jobs, k, i);
    lemma_slot_at(jobs, k, i + 1);
    lemma_plan_orderly(jobs, jobs.len() as int, 0);
}

/// The operations of one job never overlap and keep the order in which
/// they were placed: of two slots with the same job identifier, the later
/// one in the schedule starts no earlier than the other ends.
pub proof fn lemma_job_exclusive(jobs: Seq<Job>)
    ensures
        forall|p: int, q: int|
            #![trigger greedy_schedule(jobs)[p], greedy_schedule(jobs)[q]]
            0 <= p < q < greedy_schedule(jobs).len() && greedy_schedule(jobs)[p].job_id
                == greedy_schedule(jobs)[q].job_id ==> greedy_schedule(jobs)[p].end
                <= greedy_schedule(jobs)[q].start,
{
    lemma_plan_orderly(jobs, jobs.len() as int, 0);
}

/// Machine exclusivity: in the greedy schedule of any instance, two
/// different slots on one machine never overlap; the one placed later
/// starts no earlier than the other ends.
pub proof fn lemma_machine_exclusive(jobs: Seq<Job>)
    ensures
        forall|p: int, q: int|
            #![trigger greedy_schedule(jobs)[p], greedy_schedule(jobs)[q]]
            0 <= p < q < greedy_schedule(jobs).len() && greedy_schedule(jobs)[p].machine_id
                == greedy_schedule(jobs)[q].machine_id ==> greedy_schedule(jobs)[p].end
                <= greedy_schedule(jobs)[q].start,
{
    lemma_plan_orderly(jobs, jobs.len() as int, 0);
}

/// Duration fidelity: the slot of every operation lies on the operation's
/// machine, starts at a time that is not negative, and lasts exactly the
/// operation's duration.
pub proof fn lemma_duration_fidelity(jobs: Seq<Job>, k: int, i: int)
    requires
        has_operation(jobs, k, i),
    ensures
        ({
            let s = greedy_schedule(jobs);
            let p = position(jobs, k, i);
            let op = jobs[k].operations@[i];
            &&& 0 <= p < s.len()
            &&& s[p].job_id == jobs[k].id
            &&& s[p].operation_id == i
            &&& s[p].machine_id == op.machine_id
            &&& s[p].duration == op.duration
            &&& s[p].start >= 0
            &&& s[p].end - s[p].start == op.duration
        }),
{
    lemma_slot_at(jobs, k, i);
    lemma_plan_orderly(jobs, jobs.len() as int, 0);
}

/// The schedule holds one slot for each operation of the instance.
pub proof fn lemma_schedule_len(jobs: Seq<Job>)
    ensures
        greedy_schedule(jobs).len() == offset(jobs, jobs.len() as int),
{
    lemma_plan_len(jobs, jobs.len() as int, 0);
}

/// The work of the walk up to the stage `(k, i)`: the durations of all
/// operations placed by then, added up.
pub open spec fn work(jobs: Seq<Job>, k: int, i: int) -> int
    decreases k, i,
{
    if i > 0 {
        work(jobs, k, i - 1) + jobs[k].operations@[i - 1].duration
    } else if k > 0 {
        work(jobs, k - 1, jobs[k - 1].operations@.len() as int)
    } else {
        0
    }
}

/// The durations of all operations of the instance, added up.
pub open spec fn total_work(jobs: Seq<Job>) -> int {
    work(jobs, jobs.len() as int, 0)
}

/// No slot of `s` ends after `bound`.
pub open spec fn ends_by(s: Seq<Slot>, bound: int) -> bool {
    forall|p: int| 0 <= p < s.len() ==> (#[trigger] s[p]).end <= bound
}

/// Free times lie within any bound that all end times lie within.
proof fn lemma_free_by(s: Seq<Slot>, bound: int, m: int, j: int)
    requires
        ends_by(s, bound),
        0 <= bound,
    ensures
        machine_free_at(s, m) <= bound,
        job_free_at(s, j) <= bound,
    decreases s.len(),
{
    if s.len() > 0 {
        let t = s.drop_last();
        assert(s.last() == s[s.len() - 1]);
        assert forall|p: int| 0 <= p < t.len() implies (#[trigger] t[p]).end <= bound by {
            assert(t[p] == s[p]);
        }
        lemma_free_by(t, bound, m, j);
    }
}

/// At every stage, no slot ends after the work done by then.
proof fn lemma_plan_ends_by_work(jobs: Seq<Job>, k: int, i: int)
    requires
        stage(jobs, k, i),
    ensures
        0 <= work(jobs, k, i),
        ends_by(plan(jobs, k, i), work(jobs, k, i)),
    decreases k, i,
{
    if i > 0 {
        let before = plan(jobs, k, i - 1);
        let op = jobs[k].operations@[i - 1];
        lemma_plan_ends_by_work(jobs, k, i - 1);
        lemma_free_by(before, work(jobs, k, i - 1), op.machine_id as int, jobs[k].id as int);
        let s = plan(jobs, k, i);
        assert forall|p: int| 0 <= p < s.len() implies (#[trigger] s[p]).end <= work(
            jobs,
            k,
            i,
        ) by {
            if p < before.len() {
                assert(s[p] == before[p]);
            }
        }
    } else if k > 0 {
        lemma_plan_ends_by_work(jobs, k - 1, jobs[k - 1].operations@.len() as int);
    }
}

/// No operation ends after the time that all the work takes when done
/// one operation after the other. So an instance whose total work fits in
/// 64 bits has a schedule that fits.
pub proof fn lemma_ends_by_total_work(jobs: Seq<Job>)
    ensures
        ends_by(greedy_schedule(jobs), total_work(jobs)),
        total_work(jobs) <= u64::MAX ==> fits(greedy_schedule(jobs)),
{
    lemma_plan_ends_by_work(jobs, jobs.len() as int, 0);
}

/// Every position of the schedule below the first slot of job `limit` is
/// the position of an operation; the result names that operation.
pub proof fn lemma_locate(jobs: Seq<Job>, p: int, limit: int) -> (at: (int, int))
    requires
        0 <= limit <= jobs.len(),
        0 <= p < offset(jobs, limit),
    ensures
        has_operation(jobs, at.0, at.1),
        at.0 < limit,
        position(jobs, at.0, at.1) == p,
    decreases limit,
{
    lemma_plan_len(jobs, limit - 1, 0);
    if p >= offset(jobs, limit - 1) {
        (limit - 1, p - offset(jobs, limit - 1))
    } else {
        lemma_locate(jobs, p, limit - 1)
    }
}

/// Precedence by identifier: where the jobs' identifiers differ, a slot
/// ends no later than the slot of the same job with the next operation
/// index starts, wherever the two stand in the schedule.
pub proof fn lemma_precedence_by_identifier(jobs: Seq<Job>)
    requires
        job_ids_distinct(jobs),
    ensures
        forall|p: int, q: int|
            #![trigger greedy_schedule(jobs)[p], greedy_schedule(jobs)[q]]
            0 <= p < greedy_schedule(jobs).len() && 0 <= q < greedy_schedule(jobs).len()
                && greedy_schedule(jobs)[p].job_id == greedy_schedule(jobs)[q].job_id
                && greedy_schedule(jobs)[p].operation_id + 1 == greedy_schedule(
                jobs,
            )[q].operation_id ==> greedy_schedule(jobs)[p].end <= greedy_schedule(jobs)[q].start,
{
    let s = greedy_schedule(jobs);
    lemma_schedule_len(jobs);
    assert forall|p: int, q: int|
        #![trigger s[p], s[q]]
        0 <= p < s.len() && 0 <= q < s.len() && s[p].job_id == s[q].job_id && s[p].operation_id
            + 1 == s[q].operation_id implies s[p].end <= s[q].start by {
        let a = lemma_locate(jobs, p, jobs.len() as int);
        let b = lemma_locate(jobs, q, jobs.len() as int);
        lemma_duration_fidelity(jobs, a.0, a.1);
        lemma_duration_fidelity(jobs, b.0, b.1);
        if a.0 < b.0 {
            assert(jobs[a.0].id != jobs[b.0].id);
        } else if b.0 < a.0 {
            assert(jobs[b.0].id != jobs[a.0].id);
        }
        lemma_precedence(jobs, a.0, a.1);
    }
}

} // verus!
