use aoc::days::day_4::{check_for_overlap_lenient, check_for_overlap_strict, parse_elf, DayFour};

#[test]
fn test_check_overlap_strict() {
    assert_eq!(check_for_overlap_strict(1, 4, 2, 3), 1);
    assert_eq!(check_for_overlap_strict(2, 3, 1, 4), 1);
    assert_eq!(check_for_overlap_strict(1, 2, 1, 2), 1);
    assert_eq!(check_for_overlap_strict(1, 2, 3, 4), 0);
    assert_eq!(check_for_overlap_strict(3, 4, 1, 2), 0);
    assert_eq!(check_for_overlap_strict(1, 2, 1, 2), 1);
}

#[test]
fn test_check_overlap_lenient() {
    assert_eq!(check_for_overlap_lenient(1, 4, 2, 3), 1);
    assert_eq!(check_for_overlap_lenient(2, 3, 1, 4), 1);
    assert_eq!(check_for_overlap_lenient(1, 2, 1, 2), 1);
    assert_eq!(check_for_overlap_lenient(1, 2, 3, 4), 0);
    assert_eq!(check_for_overlap_lenient(3, 4, 1, 2), 0);
    assert_eq!(check_for_overlap_lenient(1, 2, 2, 3), 1);
    assert_eq!(check_for_overlap_lenient(2, 3, 1, 2), 1);
    assert_eq!(check_for_overlap_lenient(1, 3, 2, 4), 1);
    assert_eq!(check_for_overlap_lenient(1, 2, 1, 2), 1);
}

#[test]
fn test_parse_elf() {
    let (elf_a_start, elf_a_end) = parse_elf("1-2");
    assert_eq!(elf_a_start, 1);
    assert_eq!(elf_a_end, 2);
}

#[test]
fn test_find_overlap_count_p1() {
    let input = "2-4,6-8
        2-3,4-5
        5-7,7-9
        2-8,3-7
        6-6,4-6
        2-6,4-8";
    let result = DayFour{}.part_one(&input);
    assert_eq!(result, "Overlap count: 2");
}

#[test]
fn test_find_overlap_count_p2() {
    let input = "2-4,6-8
        2-3,4-5
        5-7,7-9
        2-8,3-7
        6-6,4-6
        2-6,4-8";
    let result = DayFour{}.part_two(&input);
    assert_eq!(result, "Overlap count: 4");
}
