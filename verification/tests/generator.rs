use jssp_scheduler::generator::{duration_range, job_from_draws, shuffle_machines, MIN_SPREAD};
use jssp_scheduler::{generate_random_instance, JsspSolver, Operation, TICKS_PER_UNIT};

#[test]
fn range_is_kept_when_it_is_sound() {
    assert_eq!(duration_range(2000, 9000), (2000, 9000));
    assert_eq!(duration_range(1000, 1100), (1000, 1100));
}

#[test]
fn range_is_raised_to_one_unit() {
    assert_eq!(duration_range(0, 0), (1000, 1100));
    assert_eq!(duration_range(999, 5000), (1000, 5000));
    assert_eq!(TICKS_PER_UNIT, 1000);
    assert_eq!(MIN_SPREAD, 100);
}

#[test]
fn inverted_range_is_widened() {
    assert_eq!(duration_range(5000, 2000), (5000, 5100));
    assert_eq!(duration_range(5000, 5099), (5000, 5100));
    assert_eq!(duration_range(5000, 5101), (5000, 5101));
}

#[test]
fn range_at_the_top_stays_in_bounds() {
    assert_eq!(duration_range(u64::MAX, 0), (u64::MAX, u64::MAX));
    assert_eq!(duration_range(u64::MAX - 50, 7), (u64::MAX - 50, u64::MAX));
}

#[test]
fn shuffle_follows_the_picks() {
    assert_eq!(shuffle_machines(4, &vec![0, 1, 0]), vec![2, 3, 1, 0]);
    assert_eq!(shuffle_machines(4, &vec![3, 2, 1]), vec![0, 1, 2, 3]);
    assert_eq!(shuffle_machines(3, &vec![0, 0]), vec![1, 2, 0]);
}

#[test]
fn shuffle_of_few_machines_needs_no_picks() {
    assert_eq!(shuffle_machines(0, &Vec::new()), Vec::<usize>::new());
    assert_eq!(shuffle_machines(1, &Vec::new()), vec![0]);
}

#[test]
fn job_is_built_from_its_draws() {
    let job = job_from_draws(6, &vec![0, 1, 0], &vec![1500, 1000, 2500, 1200]);
    assert_eq!(job.id, 6);
    assert_eq!(
        job.operations,
        vec![
            Operation { job_id: 6, operation_id: 0, machine_id: 2, duration: 1500 },
            Operation { job_id: 6, operation_id: 1, machine_id: 3, duration: 1000 },
            Operation { job_id: 6, operation_id: 2, machine_id: 1, duration: 2500 },
            Operation { job_id: 6, operation_id: 3, machine_id: 0, duration: 1200 },
        ]
    );
}

fn check_instance(num_jobs: usize, num_machines: usize, min: u64, max: u64) {
    let (low, high) = duration_range(min, max);
    let jobs = generate_random_instance(num_jobs, num_machines, min, max);
    assert_eq!(jobs.len(), num_jobs);
    for (k, job) in jobs.iter().enumerate() {
        assert_eq!(job.id, k);
        assert_eq!(job.operations.len(), num_machines);
        let mut seen = vec![0usize; num_machines];
        for (i, op) in job.operations.iter().enumerate() {
            assert_eq!(op.job_id, k);
            assert_eq!(op.operation_id, i);
            assert!(op.machine_id < num_machines);
            seen[op.machine_id] += 1;
            assert!(low <= op.duration && op.duration <= high);
        }
        assert!(seen.iter().all(|&count| count == 1));
    }
}

#[test]
fn generated_instances_are_valid() {
    check_instance(5, 3, 1000, 10000);
    check_instance(1, 1, 1000, 1000);
    check_instance(40, 20, 50000, 100000);
    check_instance(3, 0, 1000, 2000);
    check_instance(0, 4, 1000, 2000);
}

#[test]
fn generated_instances_heal_bad_ranges() {
    check_instance(6, 4, 0, 0);
    check_instance(6, 4, 9000, 2000);
    let jobs = generate_random_instance(4, 3, 0, 0);
    for job in &jobs {
        for op in &job.operations {
            assert!(1000 <= op.duration && op.duration <= 1100);
        }
    }
}

#[test]
fn draws_vary() {
    let jobs = generate_random_instance(200, 8, 1000, 1000000);
    let first: Vec<usize> = jobs[0].operations.iter().map(|op| op.machine_id).collect();
    let natural: Vec<usize> = (0..8).collect();
    let orders: Vec<Vec<usize>> =
        jobs.iter().map(|job| job.operations.iter().map(|op| op.machine_id).collect()).collect();
    assert!(orders.iter().any(|order| *order != first));
    assert!(orders.iter().any(|order| *order != natural));
    let durations: Vec<u64> =
        jobs.iter().flat_map(|job| job.operations.iter().map(|op| op.duration)).collect();
    assert!(durations.iter().any(|&d| d != 1000));
    assert!(durations.iter().any(|&d| d != 1000000));
    assert!(durations.iter().any(|&d| d != durations[0]));
}

#[test]
fn generated_instances_can_be_solved() {
    let jobs = generate_random_instance(12, 6, 1000, 10000);
    let solver = JsspSolver::new(jobs, 6);
    let schedule = solver.try_solve_greedy().unwrap();
    assert_eq!(schedule.len(), 72);
    for (p, a) in schedule.iter().enumerate() {
        assert_eq!(a.end_time - a.start_time, a.duration);
        for b in schedule.iter().skip(p + 1) {
            if a.machine_id == b.machine_id || a.job_id == b.job_id {
                assert!(a.end_time <= b.start_time);
            }
        }
    }
    let makespan = solver.calculate_makespan(&schedule);
    assert_eq!(makespan, schedule.iter().map(|s| s.end_time).max().unwrap());
    assert_eq!(solver.solve_greedy(), schedule);
}
