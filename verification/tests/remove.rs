use rust_toolkit::{remove, RemoveExt};

#[test]
fn test_remove_fn_splits_correctly() {
    let items = vec![1, 2, 3, 4, 5];
    let (kept, removed) = remove(items, |&n| n % 2 == 0);
    assert_eq!(kept, vec![1, 3, 5]);
    assert_eq!(removed, vec![2, 4]);
}

#[test]
fn test_remove_ext_on_iterator() {
    let items = vec!["a", "bb", "ccc", "dddd"];
    let (kept, removed) = items.remove(|s| s.len() % 2 == 0);
    assert_eq!(kept, vec!["a", "ccc"]);
    assert_eq!(removed, vec!["bb", "dddd"]);
}

#[test]
fn test_remove_empty() {
    let items: Vec<i32> = vec![];
    let (kept, removed) = remove(items, |_n| true);
    assert!(kept.is_empty());
    assert!(removed.is_empty());
}

#[test]
fn remove_halves_cover_the_input() {
    let items = vec![3, 1, 4, 1, 5, 9, 2, 6];
    let len = items.len();
    let (kept, removed) = remove(items, |&n| n > 3);
    assert_eq!(kept.len() + removed.len(), len);
    assert_eq!(kept, vec![3, 1, 1, 2]);
    assert_eq!(removed, vec![4, 5, 9, 6]);
}

#[test]
fn remove_nothing_keeps_everything_in_order() {
    let items = vec![5, 4, 3];
    let (kept, removed) = remove(items, |_n| false);
    assert_eq!(kept, vec![5, 4, 3]);
    assert!(removed.is_empty());
}
