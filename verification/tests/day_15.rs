use aoc::days::day_15::DayFifteen;

const INPUT: &str = "10
20
Sensor at x=2, y=18: closest beacon is at x=-2, y=15
Sensor at x=9, y=16: closest beacon is at x=10, y=16
Sensor at x=13, y=2: closest beacon is at x=15, y=3
Sensor at x=12, y=14: closest beacon is at x=10, y=16
Sensor at x=10, y=20: closest beacon is at x=10, y=16
Sensor at x=14, y=17: closest beacon is at x=10, y=16
Sensor at x=8, y=7: closest beacon is at x=2, y=10
Sensor at x=2, y=0: closest beacon is at x=2, y=10
Sensor at x=0, y=11: closest beacon is at x=2, y=10
Sensor at x=20, y=14: closest beacon is at x=25, y=17
Sensor at x=17, y=20: closest beacon is at x=21, y=22
Sensor at x=16, y=7: closest beacon is at x=15, y=3
Sensor at x=14, y=3: closest beacon is at x=15, y=3
Sensor at x=20, y=1: closest beacon is at x=15, y=3";

#[test]
fn day_15_test_beacons_p1() {
    let output = DayFifteen{}.part_one(&INPUT);
    assert_eq!(output, "Not possible beacon locations: 26")
}

#[test]
fn day_15_test_beacons_p2() {
    let output = DayFifteen{}.part_two(&INPUT);
    assert_eq!(output, "Tuning frequency of distress signal: 56000011")
}
