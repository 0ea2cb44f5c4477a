use aoc::days::day_23::DayTwentyThree;

const INPUT: &str = "..............
..............
.......#......
.....###.#....
...#...#.#....
....#...##....
...#.###......
...##.#.##....
....#..#......
..............
..............
..............";

#[test]
fn day_23_test_map_p1() {
    let output = DayTwentyThree{}.part_one(&INPUT);
    assert_eq!(output, "Free squares: 110")
}

#[test]
fn day_23_test_map_p2() {
    let output = DayTwentyThree{}.part_two(&INPUT);
    assert_eq!(output, "Moves until stationary: 20")
}
