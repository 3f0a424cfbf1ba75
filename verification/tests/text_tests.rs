use dice_pmf::text::{
    find_first, has_kind, is_number, is_whitespace, read_number, starts_with, to_chars,
    trim_range, without_whitespace, CharKind,
};

fn chars(s: &str) -> Vec<char> {
    s.chars().collect()
}

#[test]
fn whitespace_is_what_the_standard_library_calls_whitespace() {
    for code in 0..=0x10FFFFu32 {
        if let Some(c) = char::from_u32(code) {
            assert_eq!(is_whitespace(c), c.is_whitespace(), "U+{:04X}", code);
        }
    }
    for c in [' ', '\t', '\n', '\r', '\u{a0}', '\u{2003}', '\u{3000}'] {
        assert!(is_whitespace(c));
    }
    assert!(!is_whitespace('\u{FEFF}'));
    assert!(!is_whitespace('\u{200B}'));
}

#[test]
fn character_classes() {
    for c in "0123456789".chars() {
        assert!(has_kind(c, CharKind::Digit));
        assert!(!has_kind(c, CharKind::Sign));
        assert!(!has_kind(c, CharKind::DieLetter));
    }
    for c in "/:aD +٣".chars() {
        assert!(!has_kind(c, CharKind::Digit));
    }
    assert!(has_kind('+', CharKind::Sign));
    assert!(has_kind('-', CharKind::Sign));
    assert!(!has_kind('*', CharKind::Sign));
    assert!(has_kind('d', CharKind::DieLetter));
    assert!(has_kind('D', CharKind::DieLetter));
    assert!(!has_kind('e', CharKind::DieLetter));
}

#[test]
fn find_first_gives_the_position_or_the_length() {
    let s = chars("ab1+2-c");
    assert_eq!(find_first(&s, CharKind::Digit, 0), 2);
    assert_eq!(find_first(&s, CharKind::Digit, 2), 2);
    assert_eq!(find_first(&s, CharKind::Digit, 3), 4);
    assert_eq!(find_first(&s, CharKind::Digit, 5), 7);
    assert_eq!(find_first(&s, CharKind::Sign, 0), 3);
    assert_eq!(find_first(&s, CharKind::Sign, 4), 5);
    assert_eq!(find_first(&s, CharKind::DieLetter, 0), 7);
    assert_eq!(find_first(&s, CharKind::Sign, 7), 7);
    assert_eq!(find_first(&[], CharKind::Sign, 0), 0);
}

#[test]
fn trim_range_cuts_both_ends() {
    assert_eq!(trim_range(&chars("  ab c \t")), (2, 6));
    assert_eq!(trim_range(&chars("abc")), (0, 3));
    assert_eq!(trim_range(&chars("")), (0, 0));
    let all_space = trim_range(&chars(" \n "));
    assert_eq!(all_space.0, all_space.1);
}

#[test]
fn starts_with_compares_characters() {
    assert!(starts_with(&chars("/roll 1"), "/roll"));
    assert!(starts_with(&chars("/roll"), "/roll"));
    assert!(!starts_with(&chars("/rol"), "/roll"));
    assert!(!starts_with(&chars("/rolx"), "/roll"));
    assert!(starts_with(&chars("abc"), ""));
    assert!(starts_with(&chars("été"), "ét"));
}

#[test]
fn without_whitespace_keeps_the_order() {
    assert_eq!(without_whitespace(&chars(" + 3 d\t2 ")), chars("+3d2"));
    assert_eq!(without_whitespace(&chars("   ")), chars(""));
    assert_eq!(without_whitespace(&chars("abc")), chars("abc"));
}

#[test]
fn numbers_are_runs_of_digits() {
    assert!(is_number(&chars("0")));
    assert!(is_number(&chars("0123456789")));
    assert!(!is_number(&chars("")));
    assert!(!is_number(&chars("12a")));
    assert!(!is_number(&chars("-1")));
    assert!(!is_number(&chars("1 2")));
}

#[test]
fn read_number_reads_decimal() {
    assert_eq!(read_number(&chars("0")), Some(0));
    assert_eq!(read_number(&chars("42")), Some(42));
    assert_eq!(read_number(&chars("00042")), Some(42));
    assert_eq!(read_number(&chars("4294967295")), Some(u32::MAX));
    assert_eq!(read_number(&chars("4294967296")), None);
    assert_eq!(read_number(&chars("42949672950")), None);
    assert_eq!(read_number(&chars("99999999999999999999999999999999")), None);
}

#[test]
fn to_chars_lists_the_characters() {
    assert_eq!(to_chars("2d6 é"), chars("2d6 é"));
    assert_eq!(to_chars(""), chars(""));
}
