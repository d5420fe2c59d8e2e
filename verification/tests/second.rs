use bitonic_sorter::second::{compare_and_swap, sort, sub_sort};

#[test]
fn second_sert_u32_ascending() {
    let mut x: Vec<u32> = vec![10, 30, 11, 20, 4, 330, 21, 110];
    sort(&mut x, true);
    assert_eq!(x, vec![4, 10, 11, 20, 21, 30, 110, 330]);
}

#[test]
fn second_sort_u32_descending() {
    let mut x: Vec<u32> = vec![10, 30, 11, 20, 4, 330, 21, 110];
    sort(&mut x, false);
    assert_eq!(x, vec![330, 110, 30, 21, 20, 11, 10, 4])
}

#[test]
fn second_sort_str_ascending() {
    let mut x = vec![
        "Rust",
        "is",
        "fast",
        "and",
        "memory-efficient",
        "with",
        "no",
        "GC",
    ];
    sort(&mut x, true);
    assert_eq!(
        x,
        vec![
            "GC",
            "Rust",
            "and",
            "fast",
            "is",
            "memory-efficient",
            "no",
            "with"
        ]
    );
}

#[test]
fn second_sort_str_descending() {
    let mut x = vec![
        "Rust",
        "is",
        "fast",
        "and",
        "memory-efficient",
        "with",
        "no",
        "GC",
    ];
    sort(&mut x, false);
    assert_eq!(
        x,
        vec![
            "with",
            "no",
            "memory-efficient",
            "is",
            "fast",
            "and",
            "Rust",
            "GC",
        ]
    );
}

#[test]
fn second_sort_is_idempotent() {
    let mut x = vec!['a', 'b', 'c', 'd'];
    sort(&mut x, true);
    assert_eq!(x, vec!['a', 'b', 'c', 'd']);
    let mut y = vec!['d', 'c', 'b', 'a'];
    sort(&mut y, false);
    assert_eq!(y, vec!['d', 'c', 'b', 'a']);
}

#[test]
fn second_pass_exchanges_ties_when_sorting_down() {
    let mut x: Vec<i64> = vec![5, -1, 5, 4];
    compare_and_swap(&mut x, true);
    assert_eq!(x, vec![5, -1, 5, 4]);
    let mut y: Vec<i64> = vec![1, -1, 5, 4];
    compare_and_swap(&mut y, false);
    assert_eq!(y, vec![5, 4, 1, -1]);
}

#[test]
fn second_merge_sorts_a_bitonic_slice() {
    let mut x: Vec<u8> = vec![2, 5, 9, 7];
    sub_sort(&mut x, true);
    assert_eq!(x, vec![2, 5, 7, 9]);
    let mut y: Vec<u8> = vec![2, 5, 9, 7];
    sub_sort(&mut y, false);
    assert_eq!(y, vec![9, 7, 5, 2]);
}
