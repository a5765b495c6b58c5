use sprint_forecast::aggregate::{generate_confidence_table, generate_cumulative_table};
use sprint_forecast::report::{confidence_percent, confidence_rows, ConfidenceRow};
use std::collections::BTreeMap;

#[test]
fn percent_is_rounded_to_the_nearest_hundredth() {
    assert_eq!(confidence_percent(1, 3), 3333);
    assert_eq!(confidence_percent(2, 3), 6667);
    assert_eq!(confidence_percent(1, 8), 1250);
    assert_eq!(confidence_percent(1, 32), 313);
    assert_eq!(confidence_percent(1, 7), 1429);
}

#[test]
fn percent_of_nothing_and_of_everything() {
    assert_eq!(confidence_percent(0, 5), 0);
    assert_eq!(confidence_percent(5, 5), 10000);
    assert_eq!(confidence_percent(10000, 10000), 10000);
    assert_eq!(confidence_percent(u32::MAX, u32::MAX), 10000);
    assert_eq!(confidence_percent(1, u32::MAX), 0);
}

#[test]
fn percent_above_the_total() {
    assert_eq!(confidence_percent(3, 2), 15000);
    assert_eq!(confidence_percent(u32::MAX, 1), (u32::MAX as u64) * 10000);
}

#[test]
fn rows_ascend_with_their_percentages() {
    let raw: Vec<u16> = vec![2, 1, 2, 3, 2, 2, 3, 2];
    let cumulative = generate_cumulative_table(&generate_confidence_table(&raw));
    let rows = confidence_rows(&cumulative, 8);
    assert_eq!(
        rows,
        vec![
            ConfidenceRow { rounds: 1, finished: 1, hundredths: 1250 },
            ConfidenceRow { rounds: 2, finished: 6, hundredths: 7500 },
            ConfidenceRow { rounds: 3, finished: 8, hundredths: 10000 },
        ]
    );
}

#[test]
fn percentages_stay_in_range_and_end_at_one_hundred() {
    let raw: Vec<u16> = vec![5, 3, 3, 8, 1, 5, 5, 2, 8, 8, 8, 1, 13];
    let cumulative = generate_cumulative_table(&generate_confidence_table(&raw));
    let rows = confidence_rows(&cumulative, raw.len() as u32);
    assert!(rows.iter().all(|row| row.hundredths <= 10000));
    assert_eq!(rows.last().unwrap().hundredths, 10000);
    assert_eq!(rows.last().unwrap().rounds, 13);
}

#[test]
fn empty_table_gives_no_rows() {
    let table: BTreeMap<u16, u32> = BTreeMap::new();
    assert_eq!(confidence_rows(&table, 0), vec![]);
    assert_eq!(confidence_rows(&table, 10000), vec![]);
}
