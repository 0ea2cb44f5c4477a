use aoc::days::day_18::DayEighteen;

const INPUT: &str = "2,2,2
1,2,2
3,2,2
2,1,2
2,3,2
2,2,1
2,2,3
2,2,4
2,2,6
1,2,5
3,2,5
2,1,5
2,3,5";

#[test]
fn test_lava_simple() {
    let input = "1,1,1
2,1,1";
    let output = DayEighteen{}.part_one(&input);
    assert_eq!(output, "Surface area: 10")
}

#[test]
fn test_lava_complex() {
    let output = DayEighteen{}.part_one(&INPUT);
    assert_eq!(output, "Surface area: 64")
}

#[test]
fn test_lava_exterior_area() {
    let output = DayEighteen{}.part_two(&INPUT);
    assert_eq!(output, "Outer surface area: 58")
}
