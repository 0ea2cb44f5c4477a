use aoc::days::day_17::{DaySeventeen, Pyroclastic};

const INPUT: &str = ">>><<><>><<<>><>>><<<>>><<<><<<>><>><<>>";

#[test]
fn day_17_test_beacons_p1() {
    let output = DaySeventeen{}.part_one(&INPUT);
    assert_eq!(output, "Height: 3068")
}

#[test]
fn rocks_pile_up_as_the_jets_push_them() {
    let mut chamber = Pyroclastic::new(INPUT);
    assert_eq!(chamber.run(1, false), None);
    assert_eq!(chamber.height(), 1);
    let mut chamber = Pyroclastic::new(INPUT);
    assert_eq!(chamber.run(2, false), None);
    assert_eq!(chamber.height(), 4);
    let mut chamber = Pyroclastic::new(INPUT);
    assert_eq!(chamber.run(10, false), None);
    assert_eq!(chamber.height(), 17);
}

#[test]
fn watch_for_the_first_jet_is_kept_only_on_request() {
    let mut chamber = Pyroclastic::new("<");
    assert_eq!(chamber.run(20, false), None);
    let mut chamber = Pyroclastic::new("<");
    assert_eq!(chamber.run(20, true), Some(5));
    assert_eq!(chamber.height(), 11);
}

#[test]
fn text_that_writes_no_jets_gives_no_chamber() {
    assert!(Pyroclastic::try_new("").is_none());
    assert!(Pyroclastic::try_new("<>x").is_none());
    assert!(DaySeventeen {}.try_part_one("<>\n").is_none());
    assert!(DaySeventeen {}.try_part_two("<>\n").is_none());
}

#[test]
fn both_answers_with_one_jet() {
    assert_eq!(DaySeventeen {}.try_part_one(INPUT), Some(String::from("Height: 3068")));
    assert_eq!(DaySeventeen {}.try_part_two("<"), Some(String::from("Height: 2200000000000")));
}
