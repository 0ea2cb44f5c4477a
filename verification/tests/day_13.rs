use aoc::days::day_13::DayThirteen;

const INPUT: &str = "[1,1,3,1,1]
[1,1,5,1,1]

[[1],[2,3,4]]
[[1],4]

[9]
[[8,7,6]]

[[4,4],4,4]
[[4,4],4,4,4]

[7,7,7,7]
[7,7,7]

[]
[3]

[[[]]]
[[]]

[1,[2,[3,[4,[5,6,7]]]],8,9]
[1,[2,[3,[4,[5,6,0]]]],8,9]";

#[test]
fn test_packet_cmp_p1() {
    let output = DayThirteen{}.part_one(&INPUT);
    assert_eq!(output, "Score: 13")
}

#[test]
fn test_packet_cmp_p2() {
    let output = DayThirteen{}.part_two(&INPUT);
    assert_eq!(output, "Score: 140")
}
