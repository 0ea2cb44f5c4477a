use aoc::days::day_20::DayTwenty;

const INPUT: &str = "1
2
-3
3
-2
0
4";

#[test]
fn test_cipher_p1() {
    let output = DayTwenty{}.part_one(&INPUT);
    assert_eq!(output, "Sum: 3")
}

#[test]
fn test_cipher_p2() {
    let output = DayTwenty{}.part_two(&INPUT);
    assert_eq!(output, "Sum: 1623178306")
}
