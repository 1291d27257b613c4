use union_find_rust::text::{pair_line_is_readable, parse_usize};
use union_find_rust::union_find::read_usize_pair;

#[test]
fn parse_usize_reads_digits() {
    assert_eq!(parse_usize("42"), Some(42));
    assert_eq!(parse_usize("0"), Some(0));
    assert_eq!(parse_usize("007"), Some(7));
    assert_eq!(parse_usize("+7"), Some(7));
    assert_eq!(parse_usize("18446744073709551615"), Some(usize::MAX));
}

#[test]
fn parse_usize_refuses_other_text() {
    assert_eq!(parse_usize(""), None);
    assert_eq!(parse_usize("+"), None);
    assert_eq!(parse_usize("-1"), None);
    assert_eq!(parse_usize("1 2"), None);
    assert_eq!(parse_usize("12a"), None);
    assert_eq!(parse_usize("4\r"), None);
    assert_eq!(parse_usize("18446744073709551616"), None);
    assert_eq!(parse_usize("99999999999999999999x"), None);
}

#[test]
fn parse_usize_agrees_with_std() {
    for text in ["", "+", "-0", "0", "+0", "12", "1_0", " 1", "1 ", "٣", "340282366920938463463374607431768211456"] {
        assert_eq!(parse_usize(text), text.parse::<usize>().ok(), "{text:?}");
    }
}

#[test]
fn read_pair_of_two_fields() {
    assert_eq!(read_usize_pair("3 4".to_string()), Some((3, 4)));
    assert_eq!(read_usize_pair("0 0".to_string()), Some((0, 0)));
    assert_eq!(read_usize_pair("+5 6".to_string()), Some((5, 6)));
}

#[test]
fn read_pair_ignores_extra_fields() {
    assert_eq!(read_usize_pair("1 2 3".to_string()), Some((1, 2)));
    assert_eq!(read_usize_pair("1 2 x".to_string()), Some((1, 2)));
    assert_eq!(read_usize_pair("10 20 ".to_string()), Some((10, 20)));
}

#[test]
fn read_pair_of_one_field_is_none() {
    assert_eq!(read_usize_pair("7".to_string()), None);
    assert_eq!(read_usize_pair("12345".to_string()), None);
}

#[test]
fn readable_lines() {
    assert!(pair_line_is_readable("3 4"));
    assert!(pair_line_is_readable("7"));
    assert!(pair_line_is_readable("1 2 junk"));
    assert!(!pair_line_is_readable(""));
    assert!(!pair_line_is_readable("a b"));
    assert!(!pair_line_is_readable("1 b"));
    assert!(!pair_line_is_readable("1  2"));
    assert!(!pair_line_is_readable("1 "));
    assert!(!pair_line_is_readable(" 1 2"));
    assert!(!pair_line_is_readable("1 2\r"));
    assert!(!pair_line_is_readable("18446744073709551616 1"));
}

#[test]
fn formatted_pair_reads_back() {
    for (a, b) in [(0, 0), (3, 4), (10, 7), (123456, 9), (usize::MAX, 0), (1, usize::MAX)] {
        let line = format!("{} {}", a, b);
        assert!(pair_line_is_readable(&line));
        assert_eq!(read_usize_pair(line), Some((a, b)));
        assert_eq!(parse_usize(&a.to_string()), Some(a));
    }
}
