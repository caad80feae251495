use employee_directory::stats::count_value;
use employee_directory::stats::median;
use employee_directory::stats::mode;
use employee_directory::stats::sort_integers;

#[test]
fn sort_orders_ascending_and_keeps_entries() {
    let mut values = vec![5u32, 1, 4, 1, 3];
    sort_integers(&mut values);
    assert_eq!(values, vec![1, 1, 3, 4, 5]);
}

#[test]
fn sort_of_empty_and_single() {
    let mut empty: Vec<u32> = Vec::new();
    sort_integers(&mut empty);
    assert_eq!(empty, Vec::<u32>::new());
    let mut one = vec![9u32];
    sort_integers(&mut one);
    assert_eq!(one, vec![9]);
}

#[test]
fn median_of_odd_list() {
    let values = vec![5u32, 1, 3];
    assert_eq!(median(&values), Some(3));
}

#[test]
fn median_of_even_list_takes_upper_middle() {
    let values = vec![4u32, 1, 3, 2];
    assert_eq!(median(&values), Some(3));
}

#[test]
fn median_of_empty_list_is_none() {
    let values: Vec<u32> = Vec::new();
    assert_eq!(median(&values), None);
}

#[test]
fn mode_finds_most_frequent() {
    let values = vec![1u32, 2, 2, 3, 2, 1];
    assert_eq!(mode(&values), Some(2));
}

#[test]
fn mode_of_empty_list_is_none() {
    let values: Vec<u32> = Vec::new();
    assert_eq!(mode(&values), None);
}

#[test]
fn mode_on_tie_is_one_of_the_most_frequent() {
    let values = vec![7u32, 9, 7, 9];
    let m = mode(&values);
    assert!(matches!(m, Some(7) | Some(9)));
}

#[test]
fn count_value_counts_occurrences() {
    let values = vec![2u32, 3, 2, 2];
    assert_eq!(count_value(&values, 2), 3);
    assert_eq!(count_value(&values, 5), 0);
}
