use aoc::days::day_22::DayTwentyTwo;

const INPUT: &str = "        ...#
        .#..
        #...
        ....
...#.......#
........#...
..#....#....
..........#.
        ...#....
        .....#..
        .#......
        ......#.

10R5L5R10L4R5L5";

#[test]
fn day_22_test_map_p1() {
    let output = DayTwentyTwo{}.part_one(&INPUT);
    assert_eq!(output, "Score: 6032")
}
