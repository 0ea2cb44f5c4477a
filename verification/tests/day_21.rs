use aoc::days::day_21::DayTwentyOne;

const INPUT: &str = "root: pppw + sjmn
dbpl: 5
cczh: sllz + lgvd
zczc: 2
ptdq: humn - dvpt
dvpt: 3
lfqf: 4
humn: 5
ljgn: 2
sjmn: drzm * dbpl
sllz: 4
pppw: cczh / lfqf
lgvd: ljgn * ptdq
drzm: hmdt - zczc
hmdt: 32";

#[test]
fn test_monkeys_p1() {
    let output = DayTwentyOne{}.part_one(&INPUT);
    assert_eq!(output, "Root number: 152")
}

#[test]
fn test_monkeys_p2() {
    let output = DayTwentyOne{}.part_two(&INPUT);
    assert_eq!(output, "humn number: 301")
}
