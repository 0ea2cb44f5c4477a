use aoc::text::{
    chars_of, is_text, is_whitespace, labelled, labelled_int, labelled_number, lines_of,
    matches_at, one_char, parse_i64, parse_u64, push_decimal, push_decimal_int, same_chars,
    slice_of, split_on, string_of, trim,
};

fn texts(pieces: &Vec<Vec<char>>) -> Vec<String> {
    pieces.iter().map(string_of).collect()
}

#[test]
fn characters_and_back() {
    let v = chars_of("héllo");
    assert_eq!(v, vec!['h', 'é', 'l', 'l', 'o']);
    assert_eq!(string_of(&v), "héllo");
    assert_eq!(string_of(&chars_of("")), "");
}

#[test]
fn label_goes_first() {
    assert_eq!(labelled("Top: ", &chars_of("CMZ")), "Top: CMZ");
    assert_eq!(labelled("", &chars_of("")), "");
}

#[test]
fn text_is_compared_as_a_whole() {
    assert!(is_text(&chars_of("noop"), "noop"));
    assert!(!is_text(&chars_of("noop "), "noop"));
    assert!(!is_text(&chars_of("noo"), "noop"));
    assert!(same_chars(&chars_of("abc"), &chars_of("abc")));
    assert!(!same_chars(&chars_of("abc"), &chars_of("abd")));
    assert!(!same_chars(&chars_of("abc"), &chars_of("ab")));
    assert!(same_chars(&chars_of(""), &chars_of("")));
}

#[test]
fn slice_takes_the_half_open_range() {
    let v = chars_of("abcdef");
    assert_eq!(string_of(&slice_of(&v, 1, 4)), "bcd");
    assert_eq!(string_of(&slice_of(&v, 0, 6)), "abcdef");
    assert_eq!(string_of(&slice_of(&v, 3, 3)), "");
}

#[test]
fn white_space_is_what_the_standard_library_calls_so() {
    let mut c: u32 = 0;
    while c < 0x3100 {
        if let Some(ch) = char::from_u32(c) {
            assert_eq!(is_whitespace(ch), ch.is_whitespace(), "at {c:#x}");
        }
        c += 1;
    }
}

#[test]
fn trim_clears_both_ends_only() {
    assert_eq!(string_of(&trim(&chars_of("  ab c \t\n"))), "ab c");
    assert_eq!(string_of(&trim(&chars_of("abc"))), "abc");
    assert_eq!(string_of(&trim(&chars_of(" \t "))), "");
    assert_eq!(string_of(&trim(&chars_of(""))), "");
    assert_eq!(string_of(&trim(&chars_of("\u{3000}x\u{a0}"))), "x");
}

#[test]
fn pattern_is_matched_in_place() {
    let v = chars_of("move 1 from 2");
    assert!(matches_at(&v, 0, &chars_of("move")));
    assert!(matches_at(&v, 7, &chars_of("from")));
    assert!(!matches_at(&v, 1, &chars_of("move")));
    assert!(!matches_at(&v, 11, &chars_of("2 to")));
    assert!(matches_at(&v, 13, &chars_of("")));
}

#[test]
fn split_keeps_empty_pieces() {
    let comma = one_char(',');
    assert_eq!(texts(&split_on(&chars_of("a, b,,c"), &comma)), vec!["a", " b", "", "c"]);
    assert_eq!(texts(&split_on(&chars_of("a,"), &comma)), vec!["a", ""]);
    assert_eq!(texts(&split_on(&chars_of(",a"), &comma)), vec!["", "a"]);
    assert_eq!(texts(&split_on(&chars_of(""), &comma)), vec![""]);
    assert_eq!(texts(&split_on(&chars_of("abc"), &comma)), vec!["abc"]);
}

#[test]
fn split_on_a_longer_pattern() {
    let arrow = chars_of(" -> ");
    assert_eq!(
        texts(&split_on(&chars_of("498,4 -> 498,6 -> 496,6"), &arrow)),
        vec!["498,4", "498,6", "496,6"]
    );
    let twice = chars_of("aa");
    assert_eq!(texts(&split_on(&chars_of("aaa"), &twice)), vec!["", "a"]);
    assert_eq!(texts(&split_on(&chars_of("aaaa"), &twice)), vec!["", "", ""]);
}

#[test]
fn split_agrees_with_the_standard_library() {
    for text in ["", "x", "a\nb", "\n", "a\n\nb\n", "--a--b-", "----", "a--"] {
        for pattern in ["\n", "-", "--"] {
            let ours = texts(&split_on(&chars_of(text), &chars_of(pattern)));
            let theirs: Vec<String> = text.split(pattern).map(String::from).collect();
            assert_eq!(ours, theirs, "{text:?} split on {pattern:?}");
        }
    }
}

#[test]
fn lines_end_at_line_feeds() {
    assert_eq!(texts(&lines_of(&chars_of("a\r\nb\n\nc"))), vec!["a", "b", "", "c"]);
    assert_eq!(texts(&lines_of(&chars_of("a\n"))), vec!["a"]);
    assert_eq!(texts(&lines_of(&chars_of("a\n\n"))), vec!["a", ""]);
    assert_eq!(texts(&lines_of(&chars_of(""))), Vec::<String>::new());
    assert_eq!(texts(&lines_of(&chars_of("\n"))), vec![""]);
    assert_eq!(texts(&lines_of(&chars_of("a\rb"))), vec!["a\rb"]);
}

#[test]
fn lines_agree_with_the_standard_library() {
    for text in ["", "x", "a\nb", "\n", "a\n\nb\n", "a\r\nb\r\n", "\r\n\r\n", "a\r", "a\r\n\rb"] {
        let ours = texts(&lines_of(&chars_of(text)));
        let theirs: Vec<String> = text.lines().map(String::from).collect();
        assert_eq!(ours, theirs, "{text:?}");
    }
}

#[test]
fn signed_numbers_are_parsed() {
    assert_eq!(parse_i64(&chars_of("42")), Some(42));
    assert_eq!(parse_i64(&chars_of("-17")), Some(-17));
    assert_eq!(parse_i64(&chars_of("+5")), Some(5));
    assert_eq!(parse_i64(&chars_of("007")), Some(7));
    assert_eq!(parse_i64(&chars_of("-0")), Some(0));
    assert_eq!(parse_i64(&chars_of("9223372036854775807")), Some(i64::MAX));
    assert_eq!(parse_i64(&chars_of("-9223372036854775808")), Some(i64::MIN));
}

#[test]
fn what_is_no_signed_number_is_refused() {
    for text in ["", "-", "+", "12a", " 12", "12 ", "1-2", "--1", "+-1", "9223372036854775808",
        "-9223372036854775809", "99999999999999999999999", "٣"] {
        assert_eq!(parse_i64(&chars_of(text)), None, "{text:?}");
        assert!(text.parse::<i64>().is_err(), "{text:?}");
    }
}

#[test]
fn unsigned_numbers_are_parsed() {
    assert_eq!(parse_u64(&chars_of("0")), Some(0));
    assert_eq!(parse_u64(&chars_of("+7")), Some(7));
    assert_eq!(parse_u64(&chars_of("18446744073709551615")), Some(u64::MAX));
    for text in ["", "+", "-1", "-0", "18446744073709551616", "1 ", "x"] {
        assert_eq!(parse_u64(&chars_of(text)), None, "{text:?}");
        assert!(text.parse::<u64>().is_err(), "{text:?}");
    }
}

#[test]
fn numbers_are_written_in_decimal() {
    for n in [0u64, 7, 10, 99, 100, 1234567890, u64::MAX] {
        let mut out = chars_of("n=");
        push_decimal(&mut out, n);
        assert_eq!(string_of(&out), format!("n={n}"));
    }
    for i in [0i64, -1, 1, -10, 42, i64::MAX, i64::MIN] {
        let mut out = Vec::new();
        push_decimal_int(&mut out, i);
        assert_eq!(string_of(&out), format!("{i}"));
    }
}

#[test]
fn labelled_numbers() {
    assert_eq!(labelled_number("Total score: ", 15), "Total score: 15");
    assert_eq!(labelled_number("", 0), "0");
    assert_eq!(labelled_int("Sum: ", -3), "Sum: -3");
    assert_eq!(labelled_int("Sum: ", 1623178306), "Sum: 1623178306");
}
