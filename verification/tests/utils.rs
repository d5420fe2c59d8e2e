use bitonic_sorter::first::sort;
use bitonic_sorter::message::length_error;
use bitonic_sorter::utils::new_u32_vec;

#[test]
fn it_works() {
    assert_eq!(2 + 2, 4);
}

#[test]
fn new_u32_vec_has_the_length_asked_for() {
    assert_eq!(new_u32_vec(0), Vec::<u32>::new());
    assert_eq!(new_u32_vec(1).len(), 1);
    assert_eq!(new_u32_vec(1000).len(), 1000);
}

#[test]
fn new_u32_vec_yields_the_stream_of_the_zero_seed() {
    assert_eq!(
        new_u32_vec(8),
        vec![
            1635781291, 2281459413, 3151187213, 679046993, 146622267, 229335924, 4047650559,
            3849946191
        ]
    );
}

#[test]
fn new_u32_vec_is_the_same_at_every_call() {
    let long = new_u32_vec(64);
    let short = new_u32_vec(16);
    assert_eq!(long, new_u32_vec(64));
    assert_eq!(&long[..16], &short[..]);
}

#[test]
fn sort_orders_generated_data() {
    let mut x = new_u32_vec(1024);
    let mut expected = x.clone();
    expected.sort();
    sort(&mut x, true);
    assert_eq!(x, expected);
    expected.reverse();
    sort(&mut x, false);
    assert_eq!(x, expected);
}

#[test]
fn length_error_writes_the_number_in_decimal() {
    assert_eq!(length_error(0), "The length of x is not a power of two. (x.len(): 0)");
    assert_eq!(length_error(7), "The length of x is not a power of two. (x.len(): 7)");
    assert_eq!(length_error(90), "The length of x is not a power of two. (x.len(): 90)");
    assert_eq!(
        length_error(18446744073709551615),
        "The length of x is not a power of two. (x.len(): 18446744073709551615)"
    );
}
