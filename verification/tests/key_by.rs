use std::collections::HashMap;

use rust_toolkit::{key_by, KeyByExt};

#[derive(Debug, Clone, PartialEq)]
struct User {
    id: u32,
    name: &'static str,
}

fn create_users() -> Vec<User> {
    vec![
        User {
            id: 1,
            name: "Alice",
        },
        User { id: 2, name: "Bob" },
        User {
            id: 3,
            name: "Charlie",
        },
    ]
}

#[test]
fn test_key_by_fn() {
    let users = create_users();
    let user_map = key_by(users, |user| user.id);
    assert_eq!(
        user_map,
        HashMap::from([
            (
                1,
                User {
                    id: 1,
                    name: "Alice"
                }
            ),
            (2, User { id: 2, name: "Bob" }),
            (
                3,
                User {
                    id: 3,
                    name: "Charlie"
                }
            )
        ])
    );
}

#[test]
fn test_key_by_ext() {
    let users = create_users();
    let user_map = users.key_by(|user| user.id);
    assert_eq!(
        user_map,
        HashMap::from([
            (
                1,
                User {
                    id: 1,
                    name: "Alice"
                }
            ),
            (2, User { id: 2, name: "Bob" }),
            (
                3,
                User {
                    id: 3,
                    name: "Charlie"
                }
            )
        ])
    );
}

#[test]
fn key_by_name_length() {
    let people = vec!["Alice", "Bob", "Charlie"];
    let by_length = key_by(people, |name| name.len());
    assert_eq!(
        by_length,
        HashMap::from([(5, "Alice"), (3, "Bob"), (7, "Charlie")])
    );
}

#[test]
fn key_by_later_element_wins() {
    let numbers = vec![1, 2, 3, 4, 5];
    let by_remainder = numbers.key_by(|&n| n % 2);
    assert_eq!(by_remainder, HashMap::from([(1, 5), (0, 4)]));
}

#[test]
fn key_by_empty_input_gives_empty_map() {
    let items: Vec<u32> = vec![];
    let result = key_by(items, |&n| n);
    assert_eq!(result, HashMap::new());
}
