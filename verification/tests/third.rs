use bitonic_sorter::third::{compare_and_swap, do_sort, sort, sort_by, sub_sort};
use bitonic_sorter::SortOrder::{Ascending, Descending};

#[test]
fn sort_u32_ascending() {
    let mut x: Vec<u32> = vec![10, 30, 11, 20, 4, 330, 21, 110];
    assert!(sort(&mut x, &Ascending).is_ok());
    assert_eq!(x, vec![4, 10, 11, 20, 21, 30, 110, 330]);
}

#[test]
fn third_sort_u32_descending() {
    let mut x: Vec<u32> = vec![10, 30, 11, 20, 4, 330, 21, 110];
    assert!(sort(&mut x, &Descending).is_ok());
    assert_eq!(x, vec![330, 110, 30, 21, 20, 11, 10, 4])
}

#[test]
fn third_sort_str_ascending() {
    let mut x = vec![
        "Rust",
        "is",
        "fast",
        "and",
        "memory-efficient",
        "with",
        "no",
        "GC",
    ];
    assert!(sort(&mut x, &Ascending).is_ok());
    assert_eq!(
        x,
        vec![
            "GC",
            "Rust",
            "and",
            "fast",
            "is",
            "memory-efficient",
            "no",
            "with"
        ]
    );
}

#[test]
fn third_sort_str_descending() {
    let mut x = vec![
        "Rust",
        "is",
        "fast",
        "and",
        "memory-efficient",
        "with",
        "no",
        "GC",
    ];
    assert!(sort(&mut x, &Descending).is_ok());
    assert_eq!(
        x,
        vec![
            "with",
            "no",
            "memory-efficient",
            "is",
            "fast",
            "and",
            "Rust",
            "GC",
        ]
    );
}

#[test]
fn sort_to_fail() {
    let mut x = vec![10, 30, 11];
    assert!(sort(&mut x, &Ascending).is_err());
}

#[derive(Debug, PartialEq)]
struct Student {
    first_name: String,
    last_name: String,
    age: u8,
}

impl Student {
    fn new(first_name: &str, last_name: &str, age: u8) -> Self {
        Self {
            first_name: first_name.to_string(),
            last_name: last_name.to_string(),
            age,
        }
    }
}

#[test]
fn sort_students_by_age_ascending() {
    let taro = Student::new("Taro", "Yamada", 16);
    let hanako = Student::new("Hanako", "Yamada", 14);
    let kyoko = Student::new("Kyoko", "Ito", 15);
    let ryosuke = Student::new("Ryosuke", "Hayashi", 17);

    let mut x = vec![&taro, &hanako, &kyoko, &ryosuke];
    let expected = vec![&hanako, &kyoko, &taro, &ryosuke];

    assert_eq!(sort_by(&mut x, &|a, b| a.age.cmp(&b.age)), Ok(()));
    assert_eq!(x, expected);
}

#[test]
fn sort_students_by_name_ascending() {
    let taro = Student::new("Taro", "Yamada", 16);
    let hanako = Student::new("Hanako", "Yamada", 14);
    let kyoko = Student::new("Kyoko", "Ito", 15);
    let ryosuke = Student::new("Ryosuke", "Hayashi", 17);

    let mut x = vec![&taro, &hanako, &kyoko, &ryosuke];
    let expected = vec![&ryosuke, &kyoko, &hanako, &taro];

    assert_eq!(
        sort_by(&mut x, &|a, b| a
            .last_name
            .cmp(&b.last_name)
            .then_with(|| a.first_name.cmp(&b.first_name))),
        Ok(())
    );
    assert_eq!(x, expected);
}

#[test]
fn sort_reports_the_length_and_leaves_the_slice() {
    let mut x = vec![10, 30, 11];
    assert_eq!(
        sort(&mut x, &Ascending),
        Err("The length of x is not a power of two. (x.len(): 3)".to_string())
    );
    assert_eq!(x, vec![10, 30, 11]);
    assert_eq!(
        sort(&mut x, &Descending),
        Err("The length of x is not a power of two. (x.len(): 3)".to_string())
    );
    assert_eq!(x, vec![10, 30, 11]);
}

#[test]
fn sort_by_reports_lengths_of_several_digits() {
    let mut ten: Vec<u32> = (0..10).rev().collect();
    assert_eq!(
        sort_by(&mut ten, &|a: &u32, b: &u32| a.cmp(b)),
        Err("The length of x is not a power of two. (x.len(): 10)".to_string())
    );
    assert_eq!(ten, vec![9, 8, 7, 6, 5, 4, 3, 2, 1, 0]);
    let mut many: Vec<u32> = vec![0; 1203];
    assert_eq!(
        sort_by(&mut many, &|a: &u32, b: &u32| a.cmp(b)),
        Err("The length of x is not a power of two. (x.len(): 1203)".to_string())
    );
}

#[test]
fn sort_accepts_exactly_the_powers_of_two() {
    for n in 0..70usize {
        let mut x: Vec<usize> = (0..n).map(|i| (i * 37 + 11) % 64).collect();
        let before = x.clone();
        let r = sort(&mut x, &Ascending);
        let power = n == 1 || n == 2 || n == 4 || n == 8 || n == 16 || n == 32 || n == 64;
        assert_eq!(r.is_ok(), power, "length {}", n);
        if power {
            let mut expected = before.clone();
            expected.sort();
            assert_eq!(x, expected);
        } else {
            assert_eq!(x, before);
            assert_eq!(
                r,
                Err(format!("The length of x is not a power of two. (x.len(): {})", n))
            );
        }
    }
}

#[test]
fn sort_refuses_the_empty_slice() {
    let mut x: Vec<u32> = vec![];
    assert_eq!(
        sort(&mut x, &Ascending),
        Err("The length of x is not a power of two. (x.len(): 0)".to_string())
    );
}

#[test]
fn sort_accepts_one_element() {
    let mut x = vec![42u32];
    assert_eq!(sort(&mut x, &Descending), Ok(()));
    assert_eq!(x, vec![42]);
}

#[test]
fn sort_is_idempotent() {
    let mut up: Vec<u32> = vec![1, 1, 2, 3, 5, 8, 13, 21];
    assert_eq!(sort(&mut up, &Ascending), Ok(()));
    assert_eq!(up, vec![1, 1, 2, 3, 5, 8, 13, 21]);
    let mut down: Vec<u32> = vec![21, 13, 8, 5, 3, 2, 1, 1];
    assert_eq!(sort(&mut down, &Descending), Ok(()));
    assert_eq!(down, vec![21, 13, 8, 5, 3, 2, 1, 1]);
}

#[test]
fn sort_by_may_reorder_ties_of_a_sorted_slice() {
    let mut x: Vec<(u8, u8)> = vec![(0, 0), (0, 1), (0, 2), (0, 3), (0, 4), (1, 5), (1, 6), (1, 7)];
    assert_eq!(sort_by(&mut x, &|a: &(u8, u8), b: &(u8, u8)| a.0.cmp(&b.0)), Ok(()));
    assert_eq!(x, vec![(0, 0), (0, 1), (0, 2), (0, 3), (0, 4), (1, 6), (1, 7), (1, 5)]);
}

#[test]
fn sort_by_orders_and_keeps_every_element() {
    let mut x: Vec<(u32, char)> =
        vec![(3, 'a'), (1, 'b'), (3, 'c'), (2, 'd'), (1, 'e'), (9, 'f'), (0, 'g'), (3, 'h')];
    let before = x.clone();
    assert_eq!(sort_by(&mut x, &|a: &(u32, char), b: &(u32, char)| a.0.cmp(&b.0)), Ok(()));
    for i in 0..x.len() {
        for j in i + 1..x.len() {
            assert!(x[i].0.cmp(&x[j].0) != std::cmp::Ordering::Greater);
        }
    }
    let mut left = x.clone();
    left.sort();
    let mut right = before;
    right.sort();
    assert_eq!(left, right);
}

#[test]
fn sort_by_two_levels_breaks_ties_by_the_second() {
    let mut x: Vec<(u32, u32)> =
        vec![(2, 9), (1, 5), (2, 1), (1, 3), (3, 0), (2, 4), (1, 4), (3, 7)];
    assert_eq!(
        sort_by(&mut x, &|a: &(u32, u32), b: &(u32, u32)| a
            .0
            .cmp(&b.0)
            .then_with(|| a.1.cmp(&b.1))),
        Ok(())
    );
    assert_eq!(x, vec![(1, 3), (1, 4), (1, 5), (2, 1), (2, 4), (2, 9), (3, 0), (3, 7)]);
}

#[test]
fn do_sort_runs_backward() {
    let mut x: Vec<i32> = vec![3, -2, 7, 0];
    do_sort(&mut x, false, &|a: &i32, b: &i32| a.cmp(b));
    assert_eq!(x, vec![7, 3, 0, -2]);
}

#[test]
fn sub_sort_merges_a_bitonic_slice() {
    let mut x: Vec<i32> = vec![0, 4, 9, 6, 5, 3, 2, 1];
    sub_sort(&mut x, true, &|a: &i32, b: &i32| a.cmp(b));
    assert_eq!(x, vec![0, 1, 2, 3, 4, 5, 6, 9]);
}

#[test]
fn pass_exchanges_only_on_the_cue() {
    let mut x: Vec<(u8, char)> = vec![(2, 'a'), (1, 'b'), (1, 'c'), (1, 'd')];
    compare_and_swap(&mut x, true, &|a: &(u8, char), b: &(u8, char)| a.0.cmp(&b.0));
    assert_eq!(x, vec![(1, 'c'), (1, 'b'), (2, 'a'), (1, 'd')]);
    let mut y: Vec<(u8, char)> = vec![(1, 'a'), (1, 'b'), (2, 'c'), (1, 'd')];
    compare_and_swap(&mut y, false, &|a: &(u8, char), b: &(u8, char)| a.0.cmp(&b.0));
    assert_eq!(y, vec![(2, 'c'), (1, 'b'), (1, 'a'), (1, 'd')]);
}
