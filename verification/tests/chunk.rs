use rust_toolkit::{chunk, ChunkExt, Error};

#[test]
fn test_chunk() {
    let items = vec![1, 2, 3, 4, 5];
    let chunks = chunk(items, 3).unwrap();
    assert_eq!(chunks, vec![vec![1, 2, 3], vec![4, 5]]);
}

#[test]
fn test_chunk_ext() {
    let items = vec![1, 2, 3, 4, 5];
    let chunks = items.chunk(3).unwrap();
    assert_eq!(chunks, vec![vec![1, 2, 3], vec![4, 5]]);
}

#[test]
fn chunk_rejects_zero_size() {
    let items = vec![1, 2, 3, 4, 5];
    assert_eq!(chunk(items, 0), Err(Error::InvalidArgument));
}

#[test]
fn chunk_ext_rejects_zero_size() {
    let items = vec![1, 2, 3, 4, 5];
    assert_eq!(items.chunk(0), Err(Error::InvalidArgument));
}

#[test]
fn chunk_empty_input_gives_no_chunks() {
    let items: Vec<i32> = vec![];
    let chunks = chunk(items, 4).unwrap();
    assert_eq!(chunks, Vec::<Vec<i32>>::new());
}

#[test]
fn chunk_exact_multiple_has_full_chunks_only() {
    let items = vec![1, 2, 3, 4, 5, 6];
    let chunks = chunk(items, 2).unwrap();
    assert_eq!(chunks, vec![vec![1, 2], vec![3, 4], vec![5, 6]]);
}

#[test]
fn chunk_size_one_wraps_each_element() {
    let items = vec![9, 8, 7];
    let chunks = chunk(items, 1).unwrap();
    assert_eq!(chunks, vec![vec![9], vec![8], vec![7]]);
}

#[test]
fn chunk_oversized_chunk_holds_everything() {
    let items = vec![1, 2, 3];
    let chunks = chunk(items, 10).unwrap();
    assert_eq!(chunks, vec![vec![1, 2, 3]]);
}

#[test]
fn chunk_concatenation_restores_input() {
    let items = vec![4, 1, 5, 9, 2, 6, 5, 3, 5];
    for size in 1..=10usize {
        let chunks = chunk(items.clone(), size).unwrap();
        let flattened: Vec<i32> = chunks.iter().flatten().copied().collect();
        assert_eq!(flattened, items);
        for (i, c) in chunks.iter().enumerate() {
            if i + 1 < chunks.len() {
                assert_eq!(c.len(), size);
            } else {
                assert!(1 <= c.len() && c.len() <= size);
            }
        }
    }
}
