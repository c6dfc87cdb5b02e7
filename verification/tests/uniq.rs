use rust_toolkit::{uniq, UniqExt};

#[test]
fn test_uniq() {
    let items = vec![1, 2, 3, 4, 5, 1, 2, 3];
    let result = uniq(items);
    assert_eq!(result, vec![1, 2, 3, 4, 5]);
}

#[test]
fn test_uniq_ext() {
    let items = vec![1, 2, 3, 4, 5, 1, 2, 3];
    let result = items.uniq();
    assert_eq!(result, vec![1, 2, 3, 4, 5]);
}

#[test]
fn uniq_keeps_first_occurrence_order() {
    let items = vec![3, 1, 3, 2, 1, 4];
    let result = uniq(items);
    assert_eq!(result, vec![3, 1, 2, 4]);
}

#[test]
fn uniq_is_idempotent() {
    let items = vec![1, 2, 3, 4, 5, 1, 2, 3];
    let once = uniq(items);
    let twice = uniq(once.clone());
    assert_eq!(twice, once);
}

#[test]
fn uniq_empty_input_gives_empty_output() {
    let items: Vec<u64> = vec![];
    assert_eq!(uniq(items), Vec::<u64>::new());
}

#[test]
fn uniq_on_structs_compares_whole_values() {
    #[derive(Clone, PartialEq, Eq, Hash, Debug)]
    struct User {
        id: u32,
        name: &'static str,
    }

    let users = vec![
        User {
            id: 1,
            name: "Alice",
        },
        User {
            id: 1,
            name: "Alice",
        },
        User { id: 2, name: "Bob" },
    ];
    let unique = uniq(users);
    assert_eq!(unique.len(), 2);
}
