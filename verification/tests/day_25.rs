use aoc::days::day_25::{DayTwentyFive, SnafuDecoder};

const INPUT: &str = "1=-0-2
    12111
    2=0=
    21
    2=01
    111
    20012
    112
    1=-1=
    1-12
    12
    1=
    122";

#[test]
fn test_snafu_decodes() {
    assert_eq!(SnafuDecoder::decode("1"), 1);
    assert_eq!(SnafuDecoder::decode("2"), 2);
    assert_eq!(SnafuDecoder::decode("1="), 3);
    assert_eq!(SnafuDecoder::decode("1-"), 4);
    assert_eq!(SnafuDecoder::decode("10"), 5);
    assert_eq!(SnafuDecoder::decode("11"), 6);
    assert_eq!(SnafuDecoder::decode("12"), 7);
    assert_eq!(SnafuDecoder::decode("2="), 8);
    assert_eq!(SnafuDecoder::decode("2-"), 9);
    assert_eq!(SnafuDecoder::decode("20"), 10);
    assert_eq!(SnafuDecoder::decode("1=0"), 15);
    assert_eq!(SnafuDecoder::decode("1-0"), 20);
    assert_eq!(SnafuDecoder::decode("1=11-2"), 2022);
    assert_eq!(SnafuDecoder::decode("1-0---0"), 12345);
    assert_eq!(SnafuDecoder::decode("1121-1110-1=0"), 314159265);
}

#[test]
fn test_snafu_encodes() {
    assert_eq!(SnafuDecoder::encode(1), "1");
    assert_eq!(SnafuDecoder::encode(2), "2");
    assert_eq!(SnafuDecoder::encode(3), "1=");
    assert_eq!(SnafuDecoder::encode(4), "1-");
    assert_eq!(SnafuDecoder::encode(5), "10");
    assert_eq!(SnafuDecoder::encode(6), "11");
    assert_eq!(SnafuDecoder::encode(7), "12");
    assert_eq!(SnafuDecoder::encode(8), "2=");
    assert_eq!(SnafuDecoder::encode(9), "2-");
    assert_eq!(SnafuDecoder::encode(10), "20");
    assert_eq!(SnafuDecoder::encode(15), "1=0");
    assert_eq!(SnafuDecoder::encode(20), "1-0");
    assert_eq!(SnafuDecoder::encode(2022), "1=11-2");
    assert_eq!(SnafuDecoder::encode(12345), "1-0---0");
    assert_eq!(SnafuDecoder::encode(314159265), "1121-1110-1=0");
}

#[test]
fn day_25_test_map_p1() {
    let output = DayTwentyFive{}.part_one(&INPUT);
    assert_eq!(output, "Snafu sum: 2=-1=0")
}
