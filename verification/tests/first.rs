use bitonic_sorter::first::{compare_and_swap, sort, sub_sort};

#[test]
fn first_sert_u32_ascending() {
    let mut x = vec![10, 30, 11, 20, 4, 330, 21, 110];
    sort(&mut x, true);
    assert_eq!(x, vec![4, 10, 11, 20, 21, 30, 110, 330]);
}

#[test]
fn first_sort_u32_descending() {
    let mut x = vec![10, 30, 11, 20, 4, 330, 21, 110];
    sort(&mut x, false);
    assert_eq!(x, vec![330, 110, 30, 21, 20, 11, 10, 4])
}

#[test]
fn first_sort_leaves_short_slices() {
    let mut empty: Vec<u32> = vec![];
    sort(&mut empty, true);
    assert_eq!(empty, Vec::<u32>::new());
    let mut one = vec![7];
    sort(&mut one, false);
    assert_eq!(one, vec![7]);
}

#[test]
fn first_sort_is_idempotent() {
    let mut up = vec![1, 2, 2, 3, 5, 8, 13, 21];
    sort(&mut up, true);
    assert_eq!(up, vec![1, 2, 2, 3, 5, 8, 13, 21]);
    let mut down = vec![21, 13, 8, 5, 3, 2, 2, 1];
    sort(&mut down, false);
    assert_eq!(down, vec![21, 13, 8, 5, 3, 2, 2, 1]);
}

#[test]
fn first_sort_keeps_the_elements_of_any_length() {
    let mut x = vec![5, 1, 4, 2, 3];
    sort(&mut x, true);
    let mut seen = x.clone();
    seen.sort();
    assert_eq!(seen, vec![1, 2, 3, 4, 5]);
}

#[test]
fn first_pass_orders_each_pair() {
    let mut x = vec![9, 1, 7, 3, 2, 8, 7, 4];
    compare_and_swap(&mut x, true);
    assert_eq!(x, vec![2, 1, 7, 3, 9, 8, 7, 4]);
    let mut y = vec![9, 1, 7, 3, 2, 8, 7, 4];
    compare_and_swap(&mut y, false);
    assert_eq!(y, vec![9, 8, 7, 4, 2, 1, 7, 3]);
}

#[test]
fn first_pass_leaves_an_unpaired_last_element() {
    let mut x = vec![3, 2, 1];
    compare_and_swap(&mut x, true);
    assert_eq!(x, vec![2, 3, 1]);
}

#[test]
fn first_merge_sorts_a_bitonic_slice() {
    let mut x = vec![1, 4, 6, 9, 8, 7, 3, 2];
    sub_sort(&mut x, true);
    assert_eq!(x, vec![1, 2, 3, 4, 6, 7, 8, 9]);
    let mut rotated = vec![6, 9, 8, 7, 3, 2, 1, 4];
    sub_sort(&mut rotated, false);
    assert_eq!(rotated, vec![9, 8, 7, 6, 4, 3, 2, 1]);
}
