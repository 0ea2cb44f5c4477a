use aoc::grid::{key_of, occupied, occupy};
use aoc::numbers::{max_i32, sorted_descending, total_u32};
use std::collections::HashSet;

#[test]
fn total_adds_everything_up() {
    assert_eq!(total_u32(&vec![]), 0);
    assert_eq!(total_u32(&vec![16, 38, 42, 22, 20, 19]), 157);
    assert_eq!(total_u32(&vec![u32::MAX - 1, 0, 1]), u32::MAX);
}

#[test]
fn greatest_of_none_is_none() {
    assert_eq!(max_i32(&vec![]), None);
    assert_eq!(max_i32(&vec![-5]), Some(-5));
    assert_eq!(max_i32(&vec![3, 9, -2, 9, 4]), Some(9));
    assert_eq!(max_i32(&vec![i32::MIN, i32::MAX, 0]), Some(i32::MAX));
}

#[test]
fn descending_order_keeps_every_number() {
    assert_eq!(sorted_descending(&vec![]), Vec::<i32>::new());
    assert_eq!(sorted_descending(&vec![3, 1, 2]), vec![3, 2, 1]);
    assert_eq!(sorted_descending(&vec![5, 5, -1, 7, 5]), vec![7, 5, 5, 5, -1]);
    let given = vec![6000, 4000, 11000, 24000, 10000];
    assert_eq!(sorted_descending(&given), vec![24000, 11000, 10000, 6000, 4000]);
    assert_eq!(given, vec![6000, 4000, 11000, 24000, 10000]);
}

#[test]
fn positions_have_numbers_of_their_own() {
    assert_eq!(key_of((0, 0)), 0);
    assert_eq!(key_of((0, 7)), 7);
    assert_eq!(key_of((1, 0)), 0x1_0000_0000);
    assert_eq!(key_of((500, 3)), 500 * 0x1_0000_0000 + 3);
    assert_eq!(key_of((u32::MAX, u32::MAX)), u64::MAX);
    assert_ne!(key_of((1, 2)), key_of((2, 1)));
}

#[test]
fn occupied_is_what_was_occupied() {
    let mut coords: HashSet<u64> = HashSet::new();
    assert!(!occupied(&coords, (500, 0)));
    occupy(&mut coords, (500, 0));
    occupy(&mut coords, (0, 500));
    occupy(&mut coords, (500, 0));
    assert!(occupied(&coords, (500, 0)));
    assert!(occupied(&coords, (0, 500)));
    assert!(!occupied(&coords, (500, 1)));
    assert!(!occupied(&coords, (0, 0)));
    assert_eq!(coords.len(), 2);
}
