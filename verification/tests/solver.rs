use jssp_scheduler::{Job, JsspSolver, Operation, ScheduledOperation};

fn op(job_id: usize, operation_id: usize, machine_id: usize, duration: u64) -> Operation {
    Operation { job_id, operation_id, machine_id, duration }
}

fn job(id: usize, steps: &[(usize, u64)]) -> Job {
    let operations = steps
        .iter()
        .enumerate()
        .map(|(i, &(machine_id, duration))| op(id, i, machine_id, duration))
        .collect();
    Job { id, operations }
}

fn slot(
    job_id: usize,
    operation_id: usize,
    machine_id: usize,
    start_time: u64,
    end_time: u64,
) -> ScheduledOperation {
    ScheduledOperation {
        job_id,
        operation_id,
        machine_id,
        start_time,
        end_time,
        duration: end_time - start_time,
    }
}

fn two_by_two() -> JsspSolver {
    JsspSolver::new(vec![job(0, &[(0, 3), (1, 2)]), job(1, &[(1, 4), (0, 1)])], 2)
}

fn three_by_three() -> JsspSolver {
    JsspSolver::new(
        vec![
            job(0, &[(0, 30), (1, 20), (2, 20)]),
            job(1, &[(0, 20), (2, 10), (1, 40)]),
            job(2, &[(1, 40), (2, 30), (0, 10)]),
        ],
        3,
    )
}

#[test]
fn scenario_two_jobs_two_machines() {
    let solver = two_by_two();
    let schedule = solver.solve_greedy();
    assert_eq!(
        schedule,
        vec![slot(0, 0, 0, 0, 3), slot(0, 1, 1, 3, 5), slot(1, 0, 1, 5, 9), slot(1, 1, 0, 9, 10)]
    );
    assert_eq!(solver.calculate_makespan(&schedule), 10);
}

#[test]
fn new_keeps_the_instance() {
    let jobs = vec![job(7, &[(1, 5)]), job(3, &[])];
    let solver = JsspSolver::new(jobs.clone(), 2);
    assert_eq!(solver.jobs, jobs);
    assert_eq!(solver.num_machines, 2);
}

#[test]
fn output_is_grouped_by_job_then_by_operation() {
    let schedule = three_by_three().solve_greedy();
    let order: Vec<(usize, usize)> = schedule.iter().map(|s| (s.job_id, s.operation_id)).collect();
    assert_eq!(
        order,
        vec![(0, 0), (0, 1), (0, 2), (1, 0), (1, 1), (1, 2), (2, 0), (2, 1), (2, 2)]
    );
}

#[test]
fn three_by_three_exact_times() {
    let solver = three_by_three();
    let schedule = solver.solve_greedy();
    let times: Vec<(u64, u64)> = schedule.iter().map(|s| (s.start_time, s.end_time)).collect();
    assert_eq!(
        times,
        vec![
            (0, 30),
            (30, 50),
            (50, 70),
            (30, 50),
            (70, 80),
            (80, 120),
            (120, 160),
            (160, 190),
            (190, 200)
        ]
    );
    assert_eq!(solver.calculate_makespan(&schedule), 200);
}

#[test]
fn earlier_jobs_are_locked_in_first() {
    // The second job could run at once on its own machine; it does.
    // The third must wait for the first, though it is shorter.
    let solver = JsspSolver::new(vec![job(0, &[(0, 100)]), job(1, &[(1, 5)]), job(2, &[(0, 1)])], 2);
    let schedule = solver.solve_greedy();
    assert_eq!(schedule, vec![slot(0, 0, 0, 0, 100), slot(1, 0, 1, 0, 5), slot(2, 0, 0, 100, 101)]);
}

#[test]
fn precedence_holds_within_each_job() {
    let solver = three_by_three();
    let schedule = solver.solve_greedy();
    for pair in schedule.windows(2) {
        if pair[0].job_id == pair[1].job_id {
            assert_eq!(pair[0].operation_id + 1, pair[1].operation_id);
            assert!(pair[0].end_time <= pair[1].start_time);
        }
    }
}

#[test]
fn machines_run_one_operation_at_a_time() {
    let schedule = three_by_three().solve_greedy();
    for (p, a) in schedule.iter().enumerate() {
        for b in schedule.iter().skip(p + 1) {
            if a.machine_id == b.machine_id {
                assert!(a.end_time <= b.start_time || b.end_time <= a.start_time);
            }
        }
    }
}

#[test]
fn slots_last_as_long_as_their_operations() {
    let solver = three_by_three();
    let schedule = solver.solve_greedy();
    let mut p = 0;
    for j in &solver.jobs {
        for (i, o) in j.operations.iter().enumerate() {
            let s = &schedule[p];
            assert_eq!((s.job_id, s.operation_id, s.machine_id), (j.id, i, o.machine_id));
            assert_eq!(s.duration, o.duration);
            assert_eq!(s.end_time - s.start_time, o.duration);
            p += 1;
        }
    }
    assert_eq!(p, schedule.len());
}

#[test]
fn solving_twice_gives_the_same_schedule() {
    let solver = three_by_three();
    assert_eq!(solver.solve_greedy(), solver.solve_greedy());
    assert_eq!(solver.try_solve_greedy(), Some(solver.solve_greedy()));
}

#[test]
fn makespan_of_empty_schedule_is_zero() {
    let solver = two_by_two();
    assert_eq!(solver.calculate_makespan(&[]), 0);
}

#[test]
fn makespan_is_the_latest_end() {
    let solver = two_by_two();
    let schedule = vec![slot(0, 0, 0, 0, 7), slot(1, 0, 1, 2, 19), slot(2, 0, 2, 4, 11)];
    assert_eq!(solver.calculate_makespan(&schedule), 19);
    assert_eq!(solver.calculate_makespan(&schedule[..1]), 7);
}

#[test]
fn empty_instance_has_empty_schedule() {
    let solver = JsspSolver::new(Vec::new(), 0);
    assert_eq!(solver.solve_greedy(), Vec::new());
    let solver = JsspSolver::new(vec![job(0, &[]), job(1, &[])], 3);
    assert_eq!(solver.try_solve_greedy(), Some(Vec::new()));
}

#[test]
fn machine_beyond_the_count_starts_free() {
    let solver = JsspSolver::new(vec![job(4, &[(9, 2), (9, 3)])], 1);
    assert_eq!(solver.solve_greedy(), vec![slot(4, 0, 9, 0, 2), slot(4, 1, 9, 2, 5)]);
}

#[test]
fn jobs_that_share_an_identifier_share_a_clock() {
    let solver = JsspSolver::new(vec![job(1, &[(0, 4)]), job(1, &[(1, 2)])], 2);
    assert_eq!(solver.solve_greedy(), vec![slot(1, 0, 0, 0, 4), slot(1, 0, 1, 4, 6)]);
}

#[test]
fn times_that_do_not_fit_are_reported() {
    let solver = JsspSolver::new(vec![job(0, &[(0, u64::MAX), (1, 1)])], 2);
    assert_eq!(solver.try_solve_greedy(), None);
    let solver = JsspSolver::new(vec![job(0, &[(0, u64::MAX - 1), (1, 1)])], 2);
    assert_eq!(
        solver.try_solve_greedy(),
        Some(vec![slot(0, 0, 0, 0, u64::MAX - 1), slot(0, 1, 1, u64::MAX - 1, u64::MAX)])
    );
}
