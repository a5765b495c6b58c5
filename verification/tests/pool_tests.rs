use sprint_forecast::allocation::Allocation;
use sprint_forecast::pool::{read_sprint_history, HistoryError};

#[test]
fn history_keeps_the_points_in_order() {
    let pool = read_sprint_history(&[Some(5), Some(10), Some(0), Some(5)]).unwrap();
    assert_eq!(pool.points(), vec![5, 10, 0, 5]);
    assert_eq!(pool.len(), 4);
}

#[test]
fn history_longer_than_the_inline_storage() {
    let records: Vec<Option<u16>> = (0..20u16).map(Some).collect();
    let pool = read_sprint_history(&records).unwrap();
    assert_eq!(pool.points(), (0..20u16).collect::<Vec<u16>>());
    assert_eq!(pool.len(), 20);
}

#[test]
fn history_without_records_is_an_empty_pool() {
    let pool = read_sprint_history(&[]).unwrap();
    assert_eq!(pool.points(), Vec::<u16>::new());
    assert_eq!(pool.len(), 0);
}

#[test]
fn history_names_the_first_unreadable_record() {
    let result = read_sprint_history(&[Some(5), None, Some(1), None]);
    assert_eq!(result.err(), Some(HistoryError::UnreadableRecord { index: 1 }));
    let result = read_sprint_history(&[None]);
    assert_eq!(result.err(), Some(HistoryError::UnreadableRecord { index: 0 }));
}

#[test]
fn allocation_between_zero_and_one_is_kept_as_written() {
    let allocation = Allocation::new(2, 4).unwrap();
    assert_eq!(allocation.numerator(), 2);
    assert_eq!(allocation.denominator(), 4);
    let none = Allocation::new(0, 7).unwrap();
    assert_eq!((none.numerator(), none.denominator()), (0, 7));
    let whole = Allocation::new(7, 7).unwrap();
    assert_eq!((whole.numerator(), whole.denominator()), (7, 7));
}

#[test]
fn allocation_out_of_range_is_refused() {
    assert!(Allocation::new(1, 0).is_none());
    assert!(Allocation::new(0, 0).is_none());
    assert!(Allocation::new(3, 2).is_none());
}

#[test]
fn allocation_is_clamped_to_one() {
    let clamped = Allocation::clamped(3, 2).unwrap();
    assert_eq!((clamped.numerator(), clamped.denominator()), (2, 2));
    let kept = Allocation::clamped(1, 2).unwrap();
    assert_eq!((kept.numerator(), kept.denominator()), (1, 2));
    assert!(Allocation::clamped(1, 0).is_none());
}

#[test]
fn full_allocation_is_one() {
    let full = Allocation::full();
    assert_eq!((full.numerator(), full.denominator()), (1, 1));
}
