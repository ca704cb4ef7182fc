use kvs::pool::{PoolSupervisor, TaskOutcome};
use kvs::KvsError;

#[test]
fn pool_needs_at_least_one_worker() {
    assert!(matches!(PoolSupervisor::new(0), Err(KvsError::Io)));
    assert!(PoolSupervisor::new(1).is_ok());
}

// A panicking task costs a worker and demands a replacement; a completed
// task does not. Either way the pool stays at full strength.
#[test]
fn panicked_tasks_demand_replacements() {
    let mut sup = PoolSupervisor::new(4).unwrap();
    let mut respawns = 0;
    for i in 0..20 {
        let outcome = if i % 3 == 0 {
            TaskOutcome::Panicked
        } else {
            TaskOutcome::Completed
        };
        if sup.worker_finished(outcome) {
            respawns += 1;
        }
    }
    // tasks 0, 3, 6, 9, 12, 15, 18 panicked
    assert_eq!(respawns, 7);
}
