use aoc::days::{
    day_1, day_10, day_11, day_12, day_13, day_14, day_15, day_18, day_19, day_2, day_20, day_21,
    day_22, day_23, day_24, day_25, day_3, day_4, day_5, day_6, day_7, day_8, day_9,
};

#[test]
fn day_one_gives_both_answers() {
    let input = "1000
        2000
        3000
        
        4000
        
        5000
        6000
        
        7000
        8000
        9000
        
        10000
        ";
    let answers = day_1::DayOne {}.solve(input);
    assert_eq!(answers, Some((String::from("Maximum elf score: 24000"), String::from("Sum of top 3 elf scores: 45000"))));
}

#[test]
fn day_one_takes_no_other_text() {
    assert_eq!(day_1::DayOne {}.solve("1000\nabc"), None);
}

#[test]
fn day_two_gives_both_answers() {
    let input = "A Y
        B X
        C Z";
    let answers = day_2::DayTwo {}.solve(input);
    assert_eq!(answers, Some((String::from("Total score: 15"), String::from("Total score: 12"))));
}

#[test]
fn day_two_takes_no_other_text() {
    assert_eq!(day_2::DayTwo {}.solve("A Q"), None);
}

#[test]
fn day_three_gives_both_answers() {
    let input = "vJrwpWtwJgWrhcsFMMfFFhFp
        jqHRNqRjqzjGDLGLrsFMfFZSrLrFZsSL
        PmmdzqPrVvPwwTWBwg
        wMqvLMZHhHMvwLHjbvcjnnSBnvTQFn
        ttgJtRGJQctTZtZT
        CrZsJsPPZsGzwwsLwLmpwMDw";
    let answers = day_3::DayThree {}.solve(input);
    assert_eq!(answers, Some((String::from("Total score: 157"), String::from("Total score: 70"))));
}

#[test]
fn day_three_takes_no_other_text() {
    assert_eq!(day_3::DayThree {}.solve("abc"), None);
}

#[test]
fn day_four_gives_both_answers() {
    let input = "2-4,6-8
        2-3,4-5
        5-7,7-9
        2-8,3-7
        6-6,4-6
        2-6,4-8";
    let answers = day_4::DayFour {}.solve(input);
    assert_eq!(answers, Some((String::from("Overlap count: 2"), String::from("Overlap count: 4"))));
}

#[test]
fn day_four_takes_no_other_text() {
    assert_eq!(day_4::DayFour {}.solve("1-2"), None);
}

#[test]
fn day_five_gives_both_answers() {
    let input = "    [D]    
[N] [C]    
[Z] [M] [P]
 1   2   3 

move 1 from 2 to 1
move 3 from 1 to 3
move 2 from 2 to 1
move 1 from 1 to 2";
    let answers = day_5::DayFive {}.solve(input);
    assert_eq!(answers, Some((String::from("Top of the crates at finish: CMZ"), String::from("Top of the crates at finish: MCD"))));
}

#[test]
fn day_five_takes_no_other_text() {
    assert_eq!(day_5::DayFive {}.solve("hello"), None);
}

#[test]
fn day_six_gives_both_answers() {
    let input = "mjqjpqmgbljsphdztnvjfqwrcgsmlb";
    let answers = day_6::DaySix {}.solve(input);
    assert_eq!(answers, Some((String::from("Packet start: 7"), String::from("Start of message: 19"))));
}

#[test]
fn day_six_takes_no_other_text() {
    assert_eq!(day_6::DaySix {}.solve("aaaaaaaaaaaaaaaaaaaa"), None);
}

#[test]
fn day_seven_gives_both_answers() {
    let input = "$ cd /
$ ls
dir a
14848514 b.txt
8504156 c.dat
dir d
$ cd a
$ ls
dir e
29116 f
2557 g
62596 h.lst
$ cd e
$ ls
584 i
$ cd ..
$ cd ..
$ cd d
$ ls
4060174 j
8033020 d.log
5626152 d.ext
7214296 k";
    let answers = day_7::DaySeven {}.solve(input);
    assert_eq!(answers, Some((String::from("Sum of sizes below 100000: 95437"), String::from("Size to be deleted: 24933642"))));
}

#[test]
fn day_seven_takes_no_other_text() {
    assert_eq!(day_7::DaySeven {}.solve("hello"), None);
}

#[test]
fn day_eight_gives_both_answers() {
    let input = "30373\n25512\n65332\n33549\n35390";
    let answers = day_8::DayEight {}.solve(input);
    assert_eq!(answers, Some((String::from("Visible trees: 21"), String::from("Max scenic score: 8"))));
}

#[test]
fn day_eight_takes_no_other_text() {
    assert_eq!(day_8::DayEight {}.solve("12\n3"), None);
}

#[test]
fn day_nine_gives_both_answers() {
    let input = "R 4
U 4
L 3
D 1
R 4
D 1
L 5
R 2";
    let answers = day_9::DayNine {}.solve(input);
    assert_eq!(answers, Some((String::from("Number of positions visited by tail: 13"), String::from("Number of positions visited by tail: 1"))));
}

#[test]
fn day_nine_takes_no_other_text() {
    assert_eq!(day_9::DayNine {}.solve("X 4"), None);
}

#[test]
fn day_ten_gives_both_answers() {
    let input = "addx 15
addx -11
addx 6
addx -3
addx 5
addx -1
addx -8
addx 13
addx 4
noop
addx -1
addx 5
addx -1
addx 5
addx -1
addx 5
addx -1
addx 5
addx -1
addx -35
addx 1
addx 24
addx -19
addx 1
addx 16
addx -11
noop
noop
addx 21
addx -15
noop
noop
addx -3
addx 9
addx 1
addx -3
addx 8
addx 1
addx 5
noop
noop
noop
noop
noop
addx -36
noop
addx 1
addx 7
noop
noop
noop
addx 2
addx 6
noop
noop
noop
noop
noop
addx 1
noop
noop
addx 7
addx 1
noop
addx -13
addx 13
addx 7
noop
addx 1
addx -33
noop
noop
noop
addx 2
noop
noop
noop
addx 8
noop
addx -1
addx 2
addx 1
noop
addx 17
addx -9
addx 1
addx 1
addx -3
addx 11
noop
noop
addx 1
noop
addx 1
noop
noop
addx -13
addx -19
addx 1
addx 3
addx 26
addx -30
addx 12
addx -1
addx 3
addx 1
noop
noop
noop
addx -9
addx 18
addx 1
addx 2
noop
noop
addx 9
noop
noop
noop
addx -1
addx 2
addx -37
addx 1
addx 3
noop
addx 15
addx -21
addx 22
addx -6
addx 1
noop
addx 2
addx 1
noop
addx -10
noop
noop
addx 20
addx 1
addx 2
addx 2
addx -6
addx -11
noop
noop
noop";
    let answers = day_10::DayTen {}.solve(input);
    assert_eq!(answers, Some((String::from("Sum of registers: 13140"), String::from("Display:
##..##..##..##..##..##..##..##..##..##..
###...###...###...###...###...###...###.
####....####....####....####....####....
#####.....#####.....#####.....#####.....
######......######......######......####
#######.......#######.......#######.....
"))));
}

#[test]
fn day_ten_takes_no_other_text() {
    assert_eq!(day_10::DayTen {}.solve("jump 3"), None);
}

#[test]
fn day_eleven_gives_both_answers() {
    let input = "Monkey 0:
Starting items: 79, 98
Operation: new = old * 19
Test: divisible by 23
    If true: throw to monkey 2
    If false: throw to monkey 3

Monkey 1:
Starting items: 54, 65, 75, 74
Operation: new = old + 6
Test: divisible by 19
    If true: throw to monkey 2
    If false: throw to monkey 0

Monkey 2:
Starting items: 79, 60, 97
Operation: new = old * old
Test: divisible by 13
    If true: throw to monkey 1
    If false: throw to monkey 3

Monkey 3:
Starting items: 74
Operation: new = old + 3
Test: divisible by 17
If true: throw to monkey 0
If false: throw to monkey 1";
    let answers = day_11::DayEleven {}.solve(input);
    assert_eq!(answers, Some((String::from("Monkey business: 10605"), String::from("Monkey business: 2713310158"))));
}

#[test]
fn day_eleven_takes_no_other_text() {
    assert_eq!(day_11::DayEleven {}.solve("Monkey"), None);
}

#[test]
fn day_twelve_gives_both_answers() {
    let input = "Sabqponm
abcryxxl
accszExk
acctuvwj
abdefghi";
    let answers = day_12::DayTwelve {}.solve(input);
    assert_eq!(answers, Some((String::from("Shortest path: 31"), String::from("Shortest path: 29"))));
}

#[test]
fn day_twelve_takes_no_other_text() {
    assert_eq!(day_12::DayTwelve {}.solve("Sab"), None);
}

#[test]
fn day_thirteen_gives_both_answers() {
    let input = "[1,1,3,1,1]
[1,1,5,1,1]

[[1],[2,3,4]]
[[1],4]

[9]
[[8,7,6]]

[[4,4],4,4]
[[4,4],4,4,4]

[7,7,7,7]
[7,7,7]

[]
[3]

[[[]]]
[[]]

[1,[2,[3,[4,[5,6,7]]]],8,9]
[1,[2,[3,[4,[5,6,0]]]],8,9]";
    let answers = day_13::DayThirteen {}.solve(input);
    assert_eq!(answers, Some((String::from("Score: 13"), String::from("Score: 140"))));
}

#[test]
fn day_thirteen_takes_no_other_text() {
    assert_eq!(day_13::DayThirteen {}.solve("x"), None);
}

#[test]
fn day_fourteen_gives_both_answers() {
    let input = "498,4 -> 498,6 -> 496,6
503,4 -> 502,4 -> 502,9 -> 494,9";
    let answers = day_14::DayFourteen {}.solve(input);
    assert_eq!(answers, Some((String::from("Number until fall: 24"), String::from("Number until bottleneck: 93"))));
}

#[test]
fn day_fourteen_takes_no_other_text() {
    assert_eq!(day_14::DayFourteen {}.solve("498,4 -> x"), None);
}

#[test]
fn day_fifteen_gives_both_answers() {
    let input = "10
20
Sensor at x=2, y=18: closest beacon is at x=-2, y=15
Sensor at x=9, y=16: closest beacon is at x=10, y=16
Sensor at x=13, y=2: closest beacon is at x=15, y=3
Sensor at x=12, y=14: closest beacon is at x=10, y=16
Sensor at x=10, y=20: closest beacon is at x=10, y=16
Sensor at x=14, y=17: closest beacon is at x=10, y=16
Sensor at x=8, y=7: closest beacon is at x=2, y=10
Sensor at x=2, y=0: closest beacon is at x=2, y=10
Sensor at x=0, y=11: closest beacon is at x=2, y=10
Sensor at x=20, y=14: closest beacon is at x=25, y=17
Sensor at x=17, y=20: closest beacon is at x=21, y=22
Sensor at x=16, y=7: closest beacon is at x=15, y=3
Sensor at x=14, y=3: closest beacon is at x=15, y=3
Sensor at x=20, y=1: closest beacon is at x=15, y=3";
    let answers = day_15::DayFifteen {}.solve(input);
    assert_eq!(answers, Some((String::from("Not possible beacon locations: 26"), String::from("Tuning frequency of distress signal: 56000011"))));
}

#[test]
fn day_fifteen_takes_no_other_text() {
    assert_eq!(day_15::DayFifteen {}.solve("10\nfoo"), None);
}

#[test]
fn day_eighteen_gives_both_answers() {
    let input = "2,2,2
1,2,2
3,2,2
2,1,2
2,3,2
2,2,1
2,2,3
2,2,4
2,2,6
1,2,5
3,2,5
2,1,5
2,3,5";
    let answers = day_18::DayEighteen {}.solve(input);
    assert_eq!(answers, Some((String::from("Surface area: 64"), String::from("Outer surface area: 58"))));
}

#[test]
fn day_eighteen_takes_no_other_text() {
    assert_eq!(day_18::DayEighteen {}.solve("1,2"), None);
}

#[test]
fn day_twenty_gives_both_answers() {
    let input = "1
2
-3
3
-2
0
4";
    let answers = day_20::DayTwenty {}.solve(input);
    assert_eq!(answers, Some((String::from("Sum: 3"), String::from("Sum: 1623178306"))));
}

#[test]
fn day_twenty_takes_no_other_text() {
    assert_eq!(day_20::DayTwenty {}.solve("1\nx"), None);
}

#[test]
fn day_twenty_one_gives_both_answers() {
    let input = "root: pppw + sjmn
dbpl: 5
cczh: sllz + lgvd
zczc: 2
ptdq: humn - dvpt
dvpt: 3
lfqf: 4
humn: 5
ljgn: 2
sjmn: drzm * dbpl
sllz: 4
pppw: cczh / lfqf
lgvd: ljgn * ptdq
drzm: hmdt - zczc
hmdt: 32";
    let answers = day_21::DayTwentyOne {}.solve(input);
    assert_eq!(answers, Some((String::from("Root number: 152"), String::from("humn number: 301"))));
}

#[test]
fn day_twenty_one_takes_no_other_text() {
    assert_eq!(day_21::DayTwentyOne {}.solve("x"), None);
}

#[test]
fn day_twenty_two_gives_both_answers() {
    let input = "        ...#
        .#..
        #...
        ....
...#.......#
........#...
..#....#....
..........#.
        ...#....
        .....#..
        .#......
        ......#.

10R5L5R10L4R5L5";
    let answers = day_22::DayTwentyTwo {}.solve(input);
    assert_eq!(answers, Some((String::from("Score: 6032"), String::from("Not yet implemented"))));
}

#[test]
fn day_twenty_two_takes_no_other_text() {
    assert_eq!(day_22::DayTwentyTwo {}.solve("???"), None);
}

#[test]
fn day_twenty_five_gives_both_answers() {
    let input = "1=-0-2
    12111
    2=0=
    21
    2=01
    111
    20012
    112
    1=-1=
    1-12
    12
    1=
    122";
    let answers = day_25::DayTwentyFive {}.solve(input);
    assert_eq!(answers, Some((String::from("Snafu sum: 2=-1=0"), String::from("Not yet implemented"))));
}

#[test]
fn day_twenty_five_takes_no_other_text() {
    assert_eq!(day_25::DayTwentyFive {}.solve("3"), None);
}

#[test]
fn day_nineteen_takes_no_other_text() {
    assert_eq!(day_19::DayNineteen {}.solve("Blueprint"), None);
}

#[test]
fn day_twenty_three_without_elves() {
    assert_eq!(day_23::DayTwentyThree {}.try_part_one("..X"), None);
    assert_eq!(
        day_23::DayTwentyThree {}.try_part_two("..X"),
        Some(String::from("Moves until stationary: 1"))
    );
}

#[test]
fn day_twenty_four_takes_no_other_text() {
    assert_eq!(day_24::DayTwentyFour {}.try_part_one(""), None);
    assert_eq!(day_24::DayTwentyFour {}.try_part_two(""), None);
}

#[test]
fn day_twelve_without_a_way_up() {
    assert_eq!(day_12::DayTwelve {}.solve("SzE"), None);
    let flat = day_12::DayTwelve {}.solve("SabE");
    assert_eq!(flat, None);
    let steps = day_12::DayTwelve {}.solve("SbcdefghijklmnopqrstuvwxyE");
    assert_eq!(
        steps,
        Some((String::from("Shortest path: 25"), String::from("Shortest path: 25")))
    );
}

#[test]
fn day_fourteen_parts_alone() {
    let cave = "498,4 -> 498,6 -> 496,6\n503,4 -> 502,4 -> 502,9 -> 494,9";
    assert_eq!(
        day_14::DayFourteen {}.try_part_one(cave),
        Some(String::from("Number until fall: 24"))
    );
    assert_eq!(
        day_14::DayFourteen {}.try_part_two(cave),
        Some(String::from("Number until bottleneck: 93"))
    );
    assert_eq!(day_14::DayFourteen {}.try_part_one("1,1 -> 2,2"), None);
    assert_eq!(day_14::DayFourteen {}.try_part_one("1,499 -> 2,499"), None);
    assert_eq!(day_14::DayFourteen {}.try_part_one(""), None);
}

#[test]
fn day_eighteen_parts_alone() {
    assert_eq!(
        day_18::DayEighteen {}.try_part_one("1,1,1\n2,1,1"),
        Some(String::from("Surface area: 10"))
    );
    assert_eq!(
        day_18::DayEighteen {}.try_part_two("1,1,1\n2,1,1"),
        Some(String::from("Outer surface area: 10"))
    );
    assert_eq!(day_18::DayEighteen {}.try_part_one(""), None);
    assert_eq!(day_18::DayEighteen {}.try_part_one("1,1"), None);
    assert_eq!(day_18::DayEighteen {}.try_part_one("2147483647,0,0"), None);
}

#[test]
fn day_twenty_without_a_zero() {
    assert_eq!(day_20::DayTwenty {}.solve("1\n2\n3"), None);
    assert_eq!(day_20::DayTwenty {}.solve("7"), None);
    assert_eq!(day_20::DayTwenty {}.try_answer("0\n5", 1, 1), Some(0));
    assert_eq!(day_20::DayTwenty {}.try_answer("0\n5\n7", 1, 1), Some(12));
}
