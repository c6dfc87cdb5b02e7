use std::collections::HashMap;

use rust_toolkit::{group_by, GroupByExt};

#[derive(Debug, PartialEq, Clone)]
struct User {
    id: u32,
    name: &'static str,
    age: u32,
}

fn create_users() -> Vec<User> {
    vec![
        User {
            id: 1,
            name: "Alice",
            age: 20,
        },
        User {
            id: 2,
            name: "Bob",
            age: 20,
        },
        User {
            id: 3,
            name: "Charlie",
            age: 30,
        },
    ]
}

#[test]
fn test_group_by_fn() {
    let users = create_users();
    let user_group = group_by(users, |user| user.age);

    assert_eq!(
        user_group,
        HashMap::from([
            (
                20,
                vec![
                    User {
                        id: 1,
                        name: "Alice",
                        age: 20
                    },
                    User {
                        id: 2,
                        name: "Bob",
                        age: 20
                    },
                ]
            ),
            (
                30,
                vec![User {
                    id: 3,
                    name: "Charlie",
                    age: 30
                }]
            ),
        ])
    );
}

#[test]
fn test_group_by_ext() {
    let users = create_users();
    let user_group = users.group_by(|user| user.age);

    assert_eq!(
        user_group,
        HashMap::from([
            (
                20,
                vec![
                    User {
                        id: 1,
                        name: "Alice",
                        age: 20
                    },
                    User {
                        id: 2,
                        name: "Bob",
                        age: 20
                    },
                ]
            ),
            (
                30,
                vec![User {
                    id: 3,
                    name: "Charlie",
                    age: 30
                }]
            ),
        ])
    );
}

#[test]
fn test_group_by_with_strings() {
    let words = vec!["apple", "banana", "apricot", "blueberry"];
    let grouped = group_by(words, |word| word.len());

    assert_eq!(
        grouped,
        HashMap::from([
            (5, vec!["apple"]),
            (6, vec!["banana"]),
            (7, vec!["apricot"]),
            (9, vec!["blueberry"]),
        ])
    );
}

#[test]
fn test_group_by_with_numbers() {
    let numbers = vec![1, 2, 3, 4, 5, 6, 7, 8, 9];
    let grouped = numbers.group_by(|&n| n % 3);

    assert_eq!(
        grouped,
        HashMap::from([(0, vec![3, 6, 9]), (1, vec![1, 4, 7]), (2, vec![2, 5, 8]),])
    );
}

#[test]
fn test_group_by_empty_collection() {
    let empty_vec: Vec<i32> = vec![];
    let grouped = group_by(empty_vec, |&x| x);
    assert_eq!(grouped, HashMap::new());
}

#[test]
fn test_group_by_single_item() {
    let single_item = vec![42];
    let grouped = single_item.group_by(|&x| x % 2);
    assert_eq!(grouped, HashMap::from([(0, vec![42])]));
}

#[test]
fn test_group_by_all_same_key() {
    let items = vec![1, 3, 5, 7, 9];
    let grouped = group_by(items, |&x| x % 2);
    assert_eq!(grouped, HashMap::from([(1, vec![1, 3, 5, 7, 9])]));
}

#[test]
fn test_group_by_with_char_keys() {
    let words = vec!["apple", "banana", "apricot", "blueberry"];
    let grouped = words.group_by(|word| word.chars().next().unwrap());

    assert_eq!(
        grouped,
        HashMap::from([
            ('a', vec!["apple", "apricot"]),
            ('b', vec!["banana", "blueberry"]),
        ])
    );
}

#[test]
fn group_by_parity_buckets() {
    let numbers = vec![1, 2, 3, 4, 5, 6];
    let by_even_odd = group_by(numbers, |&n| n % 2);
    assert_eq!(
        by_even_odd,
        HashMap::from([(0, vec![2, 4, 6]), (1, vec![1, 3, 5])])
    );
}

#[test]
fn group_by_buckets_partition_the_input() {
    let items = vec![3, 1, 4, 1, 5, 9, 2, 6, 5, 3, 5];
    let mut sorted_input = items.clone();
    sorted_input.sort();
    let grouped = group_by(items, |&n| n % 4);
    let mut regathered: Vec<i32> = grouped.values().flatten().copied().collect();
    regathered.sort();
    assert_eq!(regathered, sorted_input);
}
