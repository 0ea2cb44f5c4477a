use aoc::days::day_3::{
convert_char_to_int, get_badge_priorities_input, get_badges_input, get_doubles_input,
get_doubles_line, get_priorities_input, split_string_in_half, DayThree,
};

#[test]
fn test_convert_char_to_int() {
    assert_eq!(convert_char_to_int('a'), 1);
    assert_eq!(convert_char_to_int('A'), 27);
}

#[test]
fn test_split_string_in_half() {
    let (str1, str2) = split_string_in_half("abcdef");
    assert_eq!(str1, "abc");
    assert_eq!(str2, "def");
}

#[test]
fn test_get_doubles_line() {
    let doubles_line: Vec<char> = get_doubles_line("abcade");
    assert_eq!(doubles_line.len(), 1);
    assert_eq!(doubles_line[0], 'a');
}

#[test]
fn test_get_doubles_input() {
    let input = "vJrwpWtwJgWrhcsFMMfFFhFp
        jqHRNqRjqzjGDLGLrsFMfFZSrLrFZsSL
        PmmdzqPrVvPwwTWBwg
        wMqvLMZHhHMvwLHjbvcjnnSBnvTQFn
        ttgJtRGJQctTZtZT
        CrZsJsPPZsGzwwsLwLmpwMDw";
    let result: Vec<char> = get_doubles_input(&input);
    //assert_eq!(result.len(), 6);
    assert_eq!(result[0], 'p');
    assert_eq!(result[1], 'L');
    assert_eq!(result[2], 'P');
    assert_eq!(result[3], 'v');
    assert_eq!(result[4], 't');
    assert_eq!(result[5], 's');
}

#[test]
fn test_get_priorities_input() {
    let input = "vJrwpWtwJgWrhcsFMMfFFhFp
        jqHRNqRjqzjGDLGLrsFMfFZSrLrFZsSL
        PmmdzqPrVvPwwTWBwg
        wMqvLMZHhHMvwLHjbvcjnnSBnvTQFn
        ttgJtRGJQctTZtZT
        CrZsJsPPZsGzwwsLwLmpwMDw";
    let result: Vec<u32> = get_priorities_input(&input);
    assert_eq!(result.len(), 6);
    assert_eq!(result[0], 16);
    assert_eq!(result[1], 38);
    assert_eq!(result[2], 42);
    assert_eq!(result[3], 22);
    assert_eq!(result[4], 20);
    assert_eq!(result[5], 19);
}

#[test]
fn test_get_badges_input() {
    let input = "vJrwpWtwJgWrhcsFMMfFFhFp
        jqHRNqRjqzjGDLGLrsFMfFZSrLrFZsSL
        PmmdzqPrVvPwwTWBwg
        wMqvLMZHhHMvwLHjbvcjnnSBnvTQFn
        ttgJtRGJQctTZtZT
        CrZsJsPPZsGzwwsLwLmpwMDw";
    let result: Vec<char> = get_badges_input(&input);
    assert_eq!(result.len(), 2);
    assert_eq!(result[0], 'r');
    assert_eq!(result[1], 'Z');
}

#[test]
fn test_get_badge_priorities_input() {
    let input = "vJrwpWtwJgWrhcsFMMfFFhFp
        jqHRNqRjqzjGDLGLrsFMfFZSrLrFZsSL
        PmmdzqPrVvPwwTWBwg
        wMqvLMZHhHMvwLHjbvcjnnSBnvTQFn
        ttgJtRGJQctTZtZT
        CrZsJsPPZsGzwwsLwLmpwMDw";
    let result: Vec<u32> = get_badge_priorities_input(&input);
    assert_eq!(result.len(), 2);
    assert_eq!(result[0], 18);
    assert_eq!(result[1], 52);
}

#[test]
fn test_find_priorities_p1() {
    let input = "vJrwpWtwJgWrhcsFMMfFFhFp
        jqHRNqRjqzjGDLGLrsFMfFZSrLrFZsSL
        PmmdzqPrVvPwwTWBwg
        wMqvLMZHhHMvwLHjbvcjnnSBnvTQFn
        ttgJtRGJQctTZtZT
        CrZsJsPPZsGzwwsLwLmpwMDw";
    let result = DayThree{}.part_one(&input);
    assert_eq!(result, "Total score: 157");
}

#[test]
fn test_find_badges_p2() {
    let input = "vJrwpWtwJgWrhcsFMMfFFhFp
        jqHRNqRjqzjGDLGLrsFMfFZSrLrFZsSL
        PmmdzqPrVvPwwTWBwg
        wMqvLMZHhHMvwLHjbvcjnnSBnvTQFn
        ttgJtRGJQctTZtZT
        CrZsJsPPZsGzwwsLwLmpwMDw";
    let result = DayThree{}.part_two(&input);
    assert_eq!(result, "Total score: 70");
}
