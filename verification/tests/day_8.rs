use aoc::days::day_8::{DayEight, Forest};

#[test]
fn test_is_visible() {
    let input="30373
25512
65332
33549
35390";
    let forest = Forest::new(&input);

    // Outer trees
    assert_eq!(forest.is_visible(0, 0), true);
    assert_eq!(forest.is_visible(0, 4), true);
    assert_eq!(forest.is_visible(3, 0), true);
    assert_eq!(forest.is_visible(3, 4), true);

    // Inner trees
    assert_eq!(forest.is_visible(1, 1), true);
    assert_eq!(forest.is_visible(1, 2), true);
    assert_eq!(forest.is_visible(1, 3), false);
    assert_eq!(forest.is_visible(3, 2), true);
    assert_eq!(forest.is_visible(2, 1), true);
    assert_eq!(forest.is_visible(2, 2), false);
    assert_eq!(forest.is_visible(2, 3), true);
}

#[test]
fn test_scenic_score() {
    let input="30373
25512
65332
33549
35390";
    let forest = Forest::new(&input);

    // Outer trees
    assert_eq!(forest.scenic_score(1, 2), 4);
    assert_eq!(forest.scenic_score(3, 2), 8);
}

#[test]
fn test_forest_p1() {
    let input="30373
25512
65332
33549
35390";
    assert_eq!(DayEight{}.part_one(&input), "Visible trees: 21");
}

#[test]
fn test_forest_p2() {
    let input="30373
25512
65332
33549
35390";

assert_eq!(DayEight{}.part_two(&input), "Max scenic score: 8");
}
