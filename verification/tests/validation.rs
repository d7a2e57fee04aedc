use jssp_scheduler::{generate_random_instance, InstanceError, Job, JsspSolver, Operation};

fn job(id: usize, steps: &[(usize, u64)]) -> Job {
    let operations = steps
        .iter()
        .enumerate()
        .map(|(i, &(machine_id, duration))| Operation {
            job_id: id,
            operation_id: i,
            machine_id,
            duration,
        })
        .collect();
    Job { id, operations }
}

#[test]
fn well_formed_instance_is_accepted() {
    let solver = JsspSolver::new(vec![job(0, &[(0, 3), (1, 2)]), job(1, &[(1, 4), (0, 1)])], 2);
    assert_eq!(solver.validate(), Ok(()));
    let solver = JsspSolver::new(vec![job(5, &[])], 1);
    assert_eq!(solver.validate(), Ok(()));
}

#[test]
fn instance_without_machines_is_refused() {
    let solver = JsspSolver::new(vec![job(0, &[])], 0);
    assert_eq!(solver.validate(), Err(InstanceError::NoMachines));
    let solver = JsspSolver::new(Vec::new(), 0);
    assert_eq!(solver.validate(), Err(InstanceError::NoMachines));
}

#[test]
fn instance_without_jobs_is_refused() {
    let solver = JsspSolver::new(Vec::new(), 3);
    assert_eq!(solver.validate(), Err(InstanceError::NoJobs));
}

#[test]
fn machine_out_of_range_is_refused() {
    let solver = JsspSolver::new(vec![job(0, &[(0, 3), (2, 2)])], 2);
    assert_eq!(solver.validate(), Err(InstanceError::MachineOutOfRange));
    let solver = JsspSolver::new(vec![job(0, &[(0, 0)]), job(0, &[(7, 1)])], 2);
    assert_eq!(solver.validate(), Err(InstanceError::MachineOutOfRange));
}

#[test]
fn zero_duration_is_refused() {
    let solver = JsspSolver::new(vec![job(0, &[(0, 3)]), job(1, &[(1, 0)])], 2);
    assert_eq!(solver.validate(), Err(InstanceError::ZeroDuration));
    let solver = JsspSolver::new(vec![job(1, &[(0, 3)]), job(1, &[(1, 0)])], 2);
    assert_eq!(solver.validate(), Err(InstanceError::ZeroDuration));
}

#[test]
fn duplicate_job_id_is_refused() {
    let solver = JsspSolver::new(vec![job(0, &[(0, 3)]), job(1, &[(1, 1)]), job(0, &[(1, 1)])], 2);
    assert_eq!(solver.validate(), Err(InstanceError::DuplicateJobId));
}

#[test]
fn generated_instances_are_well_formed() {
    let solver = JsspSolver::new(generate_random_instance(7, 5, 0, 0), 5);
    assert_eq!(solver.validate(), Ok(()));
    let solver = JsspSolver::new(generate_random_instance(1, 1, 3000, 100), 1);
    assert_eq!(solver.validate(), Ok(()));
}
