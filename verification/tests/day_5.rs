use aoc::days::day_5::{Crates, DayFive, Instruction, Stacking};

#[test]
fn test_parse_initial_crates() {
    let input = "    [D]    
[N] [C]    
[Z] [M] [P]
 1   2   3";
    let crates = Crates::new(&input, Stacking::Lifo);
    assert_eq!(crates.crates.len(), 3);
    assert_eq!(crates.crates[0].len(), 2);
    assert_eq!(crates.crates[0][0], 'Z');
    assert_eq!(crates.crates[0][1], 'N');
    assert_eq!(crates.crates[1].len(), 3);
    assert_eq!(crates.crates[1][0], 'M');
    assert_eq!(crates.crates[1][1], 'C');
    assert_eq!(crates.crates[1][2], 'D');
    assert_eq!(crates.crates[2].len(), 1);
    assert_eq!(crates.crates[2][0], 'P');
}

#[test]
fn test_parse_instruction() {
    let instruction = "    move 1 from 2 to 3";
    let instruction = Instruction::new(&instruction);
    assert_eq!(instruction.count, 1);
    assert_eq!(instruction.from, 1);
    assert_eq!(instruction.to, 2);
}

#[test]
fn test_do_move_lifo() {
    let mut crates = Crates::new("[C]    
[B]    
[A] [D]
 1   2 ",
    Stacking::Lifo);

    crates.do_move(Instruction::new("move 2 from 1 to 2"));
    assert_eq!(crates.crates.len(), 2);
    assert_eq!(crates.crates[0].len(), 1);
    assert_eq!(crates.crates[0][0], 'A');
    assert_eq!(crates.crates[1].len(), 3);
    assert_eq!(crates.crates[1][0], 'D');
    assert_eq!(crates.crates[1][1], 'C');
    assert_eq!(crates.crates[1][2], 'B');
}

#[test]
fn test_do_move_fifo() {
    let mut crates = Crates::new("[C]    
[B]    
[A] [D]
 1   2 ",
    Stacking::Fifo);

    crates.do_move(Instruction::new("move 2 from 1 to 2"));
    assert_eq!(crates.crates.len(), 2);
    assert_eq!(crates.crates[0].len(), 1);
    assert_eq!(crates.crates[0][0], 'A');
    assert_eq!(crates.crates[1].len(), 3);
    assert_eq!(crates.crates[1][0], 'D');
    assert_eq!(crates.crates[1][1], 'B');
    assert_eq!(crates.crates[1][2], 'C');
}

#[test]
fn test_find_final_crates_p1() {
    let input = "    [D]    
[N] [C]    
[Z] [M] [P]
 1   2   3 

move 1 from 2 to 1
move 3 from 1 to 3
move 2 from 2 to 1
move 1 from 1 to 2";
    let result = DayFive{}.part_one(&input);
    assert_eq!(result, "Top of the crates at finish: CMZ");
}

#[test]
fn test_find_final_crates_p2() {
    let input = "    [D]    
[N] [C]    
[Z] [M] [P]
 1   2   3 

move 1 from 2 to 1
move 3 from 1 to 3
move 2 from 2 to 1
move 1 from 1 to 2";
    let result = DayFive{}.part_two(&input);
    assert_eq!(result, "Top of the crates at finish: MCD");
}
