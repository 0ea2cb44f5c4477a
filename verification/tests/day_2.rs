use aoc::days::day_2::{parse, DayTwo, Reading};

#[test]
fn find_scores_pt1() {
    let input = "A Y
        B X
        C Z";
    let result: Vec<u32> = parse(input, Reading::Action);
    assert_eq!(result.len(), 3);
    assert_eq!(result[0], 8);
    assert_eq!(result[1], 1);
    assert_eq!(result[2], 6);
}

#[test]
fn find_scores_pt2() {
    let input = "A Y
        B X
        C Z";
    let result: Vec<u32> = parse(input, Reading::Outcome);
    assert_eq!(result.len(), 3);
    assert_eq!(result[0], 4);
    assert_eq!(result[1], 1);
    assert_eq!(result[2], 7);
}

#[test]
fn sum_p1() {
    let input = "A Y
        B X
        C Z";
    let result = DayTwo{}.part_one(&input);
    assert_eq!(result, "Total score: 15");
}

#[test]
fn sum_p2() {
    let input = "A Y
        B X
        C Z";
    let result = DayTwo{}.part_two(&input);
    assert_eq!(result, "Total score: 12");
}
