use aoc::days::day_9::{DayNine, Direction, Rope};

#[test]
fn test_rope_init() {
    let input="R 4
U 4
L 3
D 1
R 4
D 1
L 5
R 2";
    let rope = Rope::new(&input, 2);

    assert_eq!(rope.knots[0], (0,0));
    assert_eq!(rope.knots[1], (0,0));
    assert_eq!(rope.head_moves.len(), 8);
    assert_eq!(rope.head_moves[0].direction, Direction::Right);
    assert_eq!(rope.head_moves[0].count, 4)
}

#[test]
fn test_rope_single_move() {
    let input="R 4
U 4
L 3
D 1
R 4
D 1
L 5
R 2";
    let mut rope = Rope::new(&input, 2);
    rope.do_move(&Direction::Right);
    assert_eq!(rope.knots[0], (1,0));
    assert_eq!(rope.knots[1], (0,0));

    rope.do_move(&Direction::Right);
    assert_eq!(rope.knots[0], (2,0));
    assert_eq!(rope.knots[1], (1,0));
}

#[test]
fn test_tail_visited_count_p1() {
    let input="R 4
U 4
L 3
D 1
R 4
D 1
L 5
R 2";
    let output = DayNine{}.part_one(&input);
    assert_eq!(output, "Number of positions visited by tail: 13")
}

#[test]
fn test_tail_visited_count_p2() {
    let input="R 4
U 4
L 3
D 1
R 4
D 1
L 5
R 2";
    let output = DayNine{}.part_two(&input);
    assert_eq!(output, "Number of positions visited by tail: 1")
}

#[test]
fn test_tail_visited_count_large_example_p2() {
    let input="R 5
U 8
L 8
D 3
R 17
D 10
L 25
U 20";
    let output = DayNine{}.part_two(&input);
    assert_eq!(output, "Number of positions visited by tail: 36")
}
