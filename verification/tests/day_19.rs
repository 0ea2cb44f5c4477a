use aoc::days::day_19::{Blueprint, DayNineteen};

const INPUT: &str = "Blueprint 1: Each ore robot costs 4 ore. Each clay robot costs 2 ore. Each obsidian robot costs 3 ore and 14 clay. Each geode robot costs 2 ore and 7 obsidian.
Blueprint 2: Each ore robot costs 2 ore. Each clay robot costs 3 ore. Each obsidian robot costs 3 ore and 8 clay. Each geode robot costs 3 ore and 12 obsidian.";

#[test]
fn test_geodes_p1() {
    let output = DayNineteen{}.part_one(&INPUT);
    assert_eq!(output, "Quality levels: 33")
}

#[test]
fn test_geodes_p2_blueprint_1() {
    let input = "Blueprint 1: Each ore robot costs 4 ore. Each clay robot costs 2 ore. Each obsidian robot costs 3 ore and 14 clay. Each geode robot costs 2 ore and 7 obsidian.";

    let mut blueprint = Blueprint::new(&input, 32);
    assert_eq!(blueprint.max_geodes(), 56);
}

#[test]
fn test_geodes_p2_blueprint_2() {
    let input = "Blueprint 2: Each ore robot costs 2 ore. Each clay robot costs 3 ore. Each obsidian robot costs 3 ore and 8 clay. Each geode robot costs 3 ore and 12 obsidian.";

    let mut blueprint = Blueprint::new(&input, 32);
    assert_eq!(blueprint.max_geodes(), 62);
}
