use sprint_forecast::allocation::Allocation;
use sprint_forecast::forecast::{effective_target, run_sprints};
use sprint_forecast::pool::read_sprint_history;
use sprint_forecast::report::confidence_rows;
use sprint_forecast::simulation::SimulationError;

fn pool_of(points: &[u16]) -> sprint_forecast::pool::VelocityPool {
    let records: Vec<Option<u16>> = points.iter().map(|p| Some(*p)).collect();
    read_sprint_history(&records).unwrap()
}

#[test]
fn target_grows_by_new_tasks_per_ten() {
    assert_eq!(effective_target(10, 3), 13);
    assert_eq!(effective_target(100, 0), 100);
    assert_eq!(effective_target(20, 10), 40);
    assert_eq!(effective_target(1, 65535), 6555);
}

#[test]
fn grown_target_is_rounded_to_the_nearest() {
    assert_eq!(effective_target(4, 3), 5);
    assert_eq!(effective_target(5, 3), 7);
    assert_eq!(effective_target(6, 3), 8);
    assert_eq!(effective_target(1, 4), 1);
    assert_eq!(effective_target(1, 5), 2);
}

#[test]
fn grown_target_of_zero_is_zero() {
    assert_eq!(effective_target(0, 3), 0);
    assert_eq!(effective_target(0, 65535), 0);
}

#[test]
fn grown_target_stops_at_the_greatest_target() {
    assert_eq!(effective_target(65535, 3), 65535);
    assert_eq!(effective_target(65535, 0), 65535);
    assert_eq!(effective_target(50412, 3), 65535);
    assert_eq!(effective_target(50411, 3), 65534);
}

#[test]
fn five_or_ten_reaches_full_confidence_by_two_sprints() {
    let table = run_sprints(10, pool_of(&[5, 10]), Allocation::full(), 10000, 100).unwrap();
    let keys: Vec<u16> = table.keys().copied().collect();
    assert_eq!(keys, vec![1, 2]);
    assert!(table[&1] > 0);
    assert!(table[&1] < 10000);
    assert_eq!(table[&2], 10000);
    let rows = confidence_rows(&table, 10000);
    assert_eq!(rows.len(), 2);
    assert_eq!(rows[1].hundredths, 10000);
}

#[test]
fn steady_pool_gives_one_row() {
    let half = Allocation::new(1, 2).unwrap();
    let table = run_sprints(10, pool_of(&[5]), half, 250, 100).unwrap();
    let entries: Vec<(u16, u32)> = table.iter().map(|(k, v)| (*k, *v)).collect();
    assert_eq!(entries, vec![(4, 250)]);
}

#[test]
fn pool_of_zero_does_not_hang() {
    let result = run_sprints(1, pool_of(&[0]), Allocation::full(), 10000, 1000);
    assert_eq!(result, Err(SimulationError::RoundLimitExceeded));
}

#[test]
fn empty_pool_is_reported() {
    let result = run_sprints(1, pool_of(&[]), Allocation::full(), 10000, 1000);
    assert_eq!(result, Err(SimulationError::EmptyPool));
}

#[test]
fn no_trials_give_an_empty_table() {
    let table = run_sprints(10, pool_of(&[5, 10]), Allocation::full(), 0, 100).unwrap();
    assert!(table.is_empty());
    assert!(confidence_rows(&table, 0).is_empty());
}

#[test]
fn target_of_zero_is_done_at_once() {
    let table = run_sprints(0, pool_of(&[]), Allocation::full(), 7, 100).unwrap();
    let entries: Vec<(u16, u32)> = table.iter().map(|(k, v)| (*k, *v)).collect();
    assert_eq!(entries, vec![(0, 7)]);
}
