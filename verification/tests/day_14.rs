use aoc::days::day_14::DayFourteen;

const INPUT: &str = "498,4 -> 498,6 -> 496,6
503,4 -> 502,4 -> 502,9 -> 494,9";

#[test]
fn test_sand_drop_p1() {
    let output = DayFourteen{}.part_one(&INPUT);
    assert_eq!(output, "Number until fall: 24")
}

#[test]
fn test_sand_drop_p2() {
    let output = DayFourteen{}.part_two(&INPUT);
    assert_eq!(output, "Number until bottleneck: 93")
}
