use sprint_forecast::aggregate::{generate_confidence_table, generate_cumulative_table};
use std::collections::BTreeMap;

fn entries(table: &BTreeMap<u16, u32>) -> Vec<(u16, u32)> {
    table.iter().map(|(k, v)| (*k, *v)).collect()
}

#[test]
fn frequency_counts_each_round_count() {
    let table = generate_confidence_table(&[2, 1, 2, 3, 2]);
    assert_eq!(entries(&table), vec![(1, 1), (2, 3), (3, 1)]);
}

#[test]
fn frequency_does_not_depend_on_order() {
    let sorted = generate_confidence_table(&[1, 2, 2, 2, 3]);
    let shuffled = generate_confidence_table(&[2, 3, 2, 1, 2]);
    assert_eq!(sorted, shuffled);
}

#[test]
fn frequency_values_add_up_to_number_of_trials() {
    let raw: Vec<u16> = vec![4, 4, 7, 1, 0, 65535, 7, 4, 9, 9, 9];
    let table = generate_confidence_table(&raw);
    let total: u32 = table.values().sum();
    assert_eq!(total as usize, raw.len());
}

#[test]
fn frequency_of_single_value() {
    let table = generate_confidence_table(&[6, 6, 6, 6]);
    assert_eq!(entries(&table), vec![(6, 4)]);
}

#[test]
fn cumulative_sums_in_key_order() {
    let table = generate_confidence_table(&[2, 1, 2, 3, 2]);
    let cumulative = generate_cumulative_table(&table);
    assert_eq!(entries(&cumulative), vec![(1, 1), (2, 4), (3, 5)]);
}

#[test]
fn cumulative_of_hand_built_table() {
    let mut table: BTreeMap<u16, u32> = BTreeMap::new();
    table.insert(10, 7);
    table.insert(0, 2);
    table.insert(65535, 1);
    table.insert(3, 0);
    let cumulative = generate_cumulative_table(&table);
    assert_eq!(entries(&cumulative), vec![(0, 2), (3, 2), (10, 9), (65535, 10)]);
}

#[test]
fn cumulative_is_non_decreasing_and_ends_at_number_of_trials() {
    let raw: Vec<u16> = vec![5, 3, 3, 8, 1, 5, 5, 2, 8, 8, 8, 1];
    let cumulative = generate_cumulative_table(&generate_confidence_table(&raw));
    let values: Vec<u32> = cumulative.values().copied().collect();
    for pair in values.windows(2) {
        assert!(pair[0] <= pair[1]);
    }
    assert_eq!(*values.last().unwrap() as usize, raw.len());
}

#[test]
fn cumulative_counts_trials_finished_within_each_round_count() {
    let raw: Vec<u16> = vec![5, 3, 3, 8, 1, 5, 5, 2, 8, 8, 8, 1];
    let cumulative = generate_cumulative_table(&generate_confidence_table(&raw));
    for (key, value) in cumulative.iter() {
        let within = raw.iter().filter(|r| **r <= *key).count();
        assert_eq!(*value as usize, within);
    }
}

#[test]
fn cumulative_twice_gives_the_same_table() {
    let table = generate_confidence_table(&[9, 2, 2, 4, 9, 9]);
    let first = generate_cumulative_table(&table);
    let second = generate_cumulative_table(&table);
    assert_eq!(first, second);
    assert_eq!(entries(&first), vec![(2, 2), (4, 3), (9, 6)]);
}

#[test]
fn empty_distribution_gives_empty_tables() {
    let table = generate_confidence_table(&[]);
    assert!(table.is_empty());
    let cumulative = generate_cumulative_table(&table);
    assert!(cumulative.is_empty());
}
