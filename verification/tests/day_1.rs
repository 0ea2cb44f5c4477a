use aoc::days::day_1::DayOne;

#[test]
fn test_d1_p1() {
    let input = "1000
        2000
        3000
        
        4000
        
        5000
        6000
        
        7000
        8000
        9000
        
        10000
        ";
    let result: String = DayOne{}.part_one(&input);
    assert_eq!(result, "Maximum elf score: 24000");
}

#[test]
fn test_d1_p2() {
    let input = "1000
        2000
        3000
        
        4000
        
        5000
        6000
        
        7000
        8000
        9000
        
        10000
        ";
    let result: String = DayOne{}.part_two(&input);
    assert_eq!(result, "Sum of top 3 elf scores: 45000");
}
