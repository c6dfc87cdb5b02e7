use std::collections::HashMap;

use rust_toolkit::{count_by, CountByExt};

#[test]
fn test_count_by_fn() {
    let items = vec![1, 2, 3, 4, 5];
    let result = count_by(items, |&item| if item % 2 == 0 { "even" } else { "odd" });
    assert_eq!(result, HashMap::from([("odd", 3), ("even", 2)]));
}

#[test]
fn test_count_by_ext() {
    let items = vec![1, 2, 3, 4, 5];
    let result = items.count_by(|&item| if item % 2 == 0 { "even" } else { "odd" });
    assert_eq!(result, HashMap::from([("odd", 3), ("even", 2)]));
}

#[test]
fn count_by_parity_splits_evenly() {
    let items = vec![1, 2, 3, 4, 5, 6];
    let parity = count_by(items, |&n| if n % 2 == 0 { "even" } else { "odd" });
    assert_eq!(parity, HashMap::from([("odd", 3), ("even", 3)]));
}

#[test]
fn count_by_first_letter() {
    let words = vec!["apple", "banana", "apricot", "blueberry"];
    let by_first_letter = count_by(words, |w| w.chars().next().unwrap());
    assert_eq!(by_first_letter, HashMap::from([('a', 2usize), ('b', 2usize)]));
}

#[test]
fn count_by_empty_input_gives_empty_map() {
    let items: Vec<i32> = vec![];
    let result = count_by(items, |&n| n);
    assert_eq!(result, HashMap::new());
}

#[test]
fn count_by_counts_sum_to_input_length() {
    let items = vec![3, 1, 4, 1, 5, 9, 2, 6, 5, 3, 5];
    let len = items.len();
    let result = count_by(items, |&n| n % 3);
    assert_eq!(result.values().sum::<usize>(), len);
}
