use isaac_unlocker::text::{chars_of, find_chars, parse_i16_chars, split_lines, str_equal};

fn lines(s: &str) -> Vec<String> {
    split_lines(s)
}

fn parse(s: &str) -> Option<i16> {
    parse_i16_chars(&chars_of(s))
}

#[test]
fn lines_split_at_both_line_endings() {
    assert_eq!(lines("a\r\nb\nc"), vec!["a", "b", "c"]);
}

#[test]
fn lines_of_empty_text_are_none() {
    assert_eq!(lines(""), Vec::<String>::new());
}

#[test]
fn lines_keep_empty_lines_between_endings() {
    assert_eq!(lines("\n"), vec![""]);
    assert_eq!(lines("a\n\nb\n"), vec!["a", "", "b"]);
}

#[test]
fn lines_keep_a_lone_carriage_return() {
    assert_eq!(lines("a\rb"), vec!["a\rb"]);
    assert_eq!(lines("x\r"), vec!["x\r"]);
}

#[test]
fn lines_agree_with_std() {
    for s in ["", "a", "a\n", "a\r\n", "\r\n\r\n", "one\ntwo\r\nthree", "é\nü\r\n", "\n\n"] {
        let ours = lines(s);
        let std_lines: Vec<String> = s.lines().map(|l| l.to_string()).collect();
        assert_eq!(ours, std_lines, "text {:?}", s);
    }
}

#[test]
fn final_line_ending_changes_no_line() {
    assert_eq!(lines("Dead Cat\nHalo"), lines("Dead Cat\nHalo\n"));
}

#[test]
fn parse_accepts_signs_and_digits() {
    assert_eq!(parse("123"), Some(123));
    assert_eq!(parse("+5"), Some(5));
    assert_eq!(parse("-17"), Some(-17));
    assert_eq!(parse("007"), Some(7));
}

#[test]
fn parse_range_limits() {
    assert_eq!(parse("32767"), Some(32767));
    assert_eq!(parse("-32768"), Some(-32768));
    assert_eq!(parse("32768"), None);
    assert_eq!(parse("-32769"), None);
    assert_eq!(parse("99999999999"), None);
}

#[test]
fn parse_rejects_non_numbers() {
    assert_eq!(parse(""), None);
    assert_eq!(parse("-"), None);
    assert_eq!(parse("+"), None);
    assert_eq!(parse("1a"), None);
    assert_eq!(parse("+-1"), None);
    assert_eq!(parse(" 1"), None);
}

#[test]
fn parse_agrees_with_std() {
    for s in ["0", "-0", "+0", "12", "-12", "32767", "32768", "-32768", "-32769", "a", "", "+", "٣"] {
        assert_eq!(parse(s), s.parse::<i16>().ok(), "text {:?}", s);
    }
}

#[test]
fn find_chars_finds_substrings() {
    assert!(find_chars(&chars_of("hello world"), &chars_of("o w")));
    assert!(find_chars(&chars_of("abc"), &chars_of("")));
    assert!(find_chars(&chars_of("abc"), &chars_of("abc")));
    assert!(!find_chars(&chars_of("abc"), &chars_of("abcd")));
    assert!(!find_chars(&chars_of("abc"), &chars_of("ac")));
}

#[test]
fn str_equal_compares_characters() {
    assert!(str_equal("Locked", "Locked"));
    assert!(!str_equal("Locked", "locked"));
    assert!(!str_equal("All", "Al"));
}
