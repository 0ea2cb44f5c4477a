use aoc::days::day_11::DayEleven;

const INPUT: &str = "Monkey 0:
Starting items: 79, 98
Operation: new = old * 19
Test: divisible by 23
    If true: throw to monkey 2
    If false: throw to monkey 3

Monkey 1:
Starting items: 54, 65, 75, 74
Operation: new = old + 6
Test: divisible by 19
    If true: throw to monkey 2
    If false: throw to monkey 0

Monkey 2:
Starting items: 79, 60, 97
Operation: new = old * old
Test: divisible by 13
    If true: throw to monkey 1
    If false: throw to monkey 3

Monkey 3:
Starting items: 74
Operation: new = old + 3
Test: divisible by 17
If true: throw to monkey 0
If false: throw to monkey 1";

#[test]
fn test_monkey_thrower_p1() {
    let output = DayEleven{}.part_one(&INPUT);
    assert_eq!(output, "Monkey business: 10605")
}

#[test]
fn test_monkey_thrower_p2() {
    let output = DayEleven{}.part_two(&INPUT);
    assert_eq!(output, "Monkey business: 2713310158")
}
