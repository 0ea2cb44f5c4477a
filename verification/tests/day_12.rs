use aoc::days::day_12::DayTwelve;

const INPUT: &str = "Sabqponm
abcryxxl
accszExk
acctuvwj
abdefghi";

#[test]
fn test_height_map_p1() {
    let output = DayTwelve{}.part_one(&INPUT);
    assert_eq!(output, "Shortest path: 31")
}

#[test]
fn test_height_map_p2() {
    let output = DayTwelve{}.part_two(&INPUT);
    assert_eq!(output, "Shortest path: 29")
}
