use aoc::days::day_24::DayTwentyFour;

const INPUT: &str = "#.######
#>>.<^<#
#.<..<<#
#>v.><>#
#<^v^^>#
######.#";

#[test]
fn day_24_test_map_p1() {
    let output = DayTwentyFour{}.part_one(&INPUT);
    assert_eq!(output, "Minimum moves: 18")
}

#[test]
fn day_24_test_map_p2() {
    let output = DayTwentyFour{}.part_two(&INPUT);
    assert_eq!(output, "Minimum moves: 54")
}
